use extension_scanner::names::{executable_extension, extension_for_name, extension_label};
use extension_scanner::names::{sanitize_filename, split_name, suspicious_name, NO_EXTENSION};
use std::path::Path;

#[test]
fn extensions_of_names() {
    assert_eq!(extension_for_name("a.TXT"), ".txt");
    assert_eq!(extension_for_name("dir/b.tar.GZ"), ".gz");
    assert_eq!(extension_for_name("dir.d/plain"), NO_EXTENSION);
    assert_eq!(extension_for_name(".hidden"), NO_EXTENSION);
    assert_eq!(extension_for_name("ends."), NO_EXTENSION);
    assert_eq!(extension_for_name(".."), NO_EXTENSION);
    assert_eq!(extension_for_name(""), NO_EXTENSION);
    assert_eq!(extension_for_name("dir/a.b/"), ".b");
    assert_eq!(extension_for_name("x.ÄÖ"), ".äö");
}

fn std_label(name: &str) -> String {
    match Path::new(name).extension().and_then(|x| x.to_str()) {
        Some(extension) if !extension.is_empty() => format!(".{}", extension.to_lowercase()),
        _ => NO_EXTENSION.to_string(),
    }
}

#[test]
fn extensions_agree_with_std() {
    for name in [
        "", ".", "..", "...", "a", "a.", "a.b", ".a", ".a.b", "..a", "a..b", "a/b.c", "a.b/c", "a/..",
        "a:b.txt", "C:\\dir\\a.TXT", "x.d\\plain", "a/b:c.d.e", "\\a.b", "a/.", "/", "//", "a//b.C", "x/y.z/.", "x/y.z/./", "\u{130}.\u{130}", "a.ſ",
    ] {
        assert_eq!(extension_for_name(name), std_label(name), "{}", name);
    }
}

#[test]
fn labels() {
    assert_eq!(extension_label(&None), "File / No Extension");
    assert_eq!(extension_label(&Some(String::new())), "File / No Extension");
    assert_eq!(extension_label(&Some("PnG".to_string())), ".png");
}

#[test]
fn names_split_at_their_last_full_stop() {
    assert_eq!(split_name("a.b.c"), ("a.b".to_string(), Some("c".to_string())));
    assert_eq!(split_name(".a"), (".a".to_string(), None));
    assert_eq!(split_name("a"), ("a".to_string(), None));
    assert_eq!(split_name("a."), ("a".to_string(), Some(String::new())));
}

#[test]
fn disguised_programs_are_suspicious() {
    assert!(suspicious_name("malware.png.exe"));
    assert!(suspicious_name("Invoice.PDF.JS"));
    assert!(suspicious_name("a..exe"));
    assert!(!suspicious_name("setup.exe"));
    assert!(!suspicious_name("photo.exe.png"));
    assert!(!suspicious_name(".png.exe"));
    assert!(!suspicious_name("archive.tar.gz"));
    assert!(!suspicious_name("exe"));
    assert!(!suspicious_name(""));
}

fn std_suspicious(name: &str) -> bool {
    let path = Path::new(name);
    let Some(last) = path.extension() else {
        return false;
    };
    if !executable_extension(last.to_string_lossy().to_lowercase().as_str()) {
        return false;
    }
    let Some(stem) = path.file_stem() else {
        return false;
    };
    Path::new(stem.to_string_lossy().as_ref()).extension().is_some()
}

#[test]
fn suspicion_agrees_with_std_paths() {
    for name in [
        "a.b.exe", "a.exe", ".exe", "..exe", "...exe", "a..exe", ".a.exe", ".a.b.exe", "x/a.b.com", "a.b.exe/",
        "x:a.png.exe", "C:\\dir\\setup.exe", "x.png\\setup.exe", "d\\a.b.js", "a:b.exe", "a.b.EXE", "a.b.ſcr", "a.b.exe.", "../a.b.js", "..", "a/..",
    ] {
        assert_eq!(suspicious_name(name), std_suspicious(name), "{}", name);
    }
}

#[test]
fn executable_extensions() {
    for extension in [
        "exe", "scr", "com", "bat", "cmd", "ps1", "vbs", "vbe", "js", "jse", "ws", "wsf", "wsh", "msi", "msp", "cpl",
    ] {
        assert!(executable_extension(extension));
    }
    assert!(!executable_extension("EXE"));
    assert!(!executable_extension("ex"));
    assert!(!executable_extension(""));
}

#[test]
fn file_names_are_made_fit() {
    assert_eq!(sanitize_filename("My Folder"), "My Folder");
    assert_eq!(sanitize_filename("a<b>c:d\"e/f\\g|h?i*j"), "a_b_c_d_e_f_g_h_i_j");
    assert_eq!(sanitize_filename("  ..name.. "), "name");
    assert_eq!(sanitize_filename("..."), "scan");
    assert_eq!(sanitize_filename("   "), "scan");
    assert_eq!(sanitize_filename(""), "scan");
    assert_eq!(sanitize_filename(". x"), " x");
}

#[test]
fn names_with_other_dividers_have_the_extension_of_their_tail() {
    assert_eq!(extension_for_name("a:b.TXT"), ".txt");
    assert_eq!(extension_for_name("C:\\dir.d\\photo.png"), ".png");
    assert!(suspicious_name("C:\\in\\malware.png.exe"));
    assert!(suspicious_name("a:malware.png.exe"));
    assert!(!suspicious_name("C:\\in\\setup.exe"));
    assert!(!suspicious_name("a:b.c.txt"));
}

#[test]
fn a_directory_in_front_does_not_change_the_extension() {
    for directory in ["", "a", "a.b", "x/y.z", ".."] {
        for name in ["f.TXT", "plain", ".hidden", "a.b.c", ".."] {
            assert_eq!(
                extension_for_name(&format!("{}/{}", directory, name)),
                extension_for_name(name)
            );
        }
    }
}

#[test]
fn case_does_not_change_the_extension() {
    for name in ["dir.D/f.Tar.GZ", "Plain", "a.B", "Äpfel und Birnen.TxT", "日本/x.ß.Png", "É.é.Q"] {
        assert_eq!(
            extension_for_name(&name.to_ascii_uppercase()),
            extension_for_name(&name.to_ascii_lowercase())
        );
    }
}
