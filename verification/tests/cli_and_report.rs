use lib::cli::{Config, Invocation, Location, Platform};
use lib::layout::{Layout, Segment, Status};
use lib::report::{imaging_report, layout_csv, HelpLevel};

fn args(v: &[&str]) -> Vec<String> {
    v.iter().map(|s| s.to_string()).collect()
}

fn error_of(v: &[&str]) -> String {
    match Config::parse_cli_from_iter(&args(v), Platform::Unix) {
        Err(e) => e.to_string(),
        Ok(_) => panic!("expected an error"),
    }
}

#[test]
fn sizes_with_units_any_case() {
    assert_eq!(Config::parse_size_with_unit("s", "32kb").unwrap(), 32768);
    assert_eq!(Config::parse_size_with_unit("s", "32K").unwrap(), 32768);
    assert_eq!(Config::parse_size_with_unit("s", "256KiB").unwrap(), 262144);
    assert_eq!(Config::parse_size_with_unit("s", "32M").unwrap(), 32 * 1024 * 1024);
    assert_eq!(Config::parse_size_with_unit("s", "1GiB").unwrap(), 1 << 30);
    assert_eq!(Config::parse_size_with_unit("s", "512B").unwrap(), 512);
    assert_eq!(Config::parse_size_with_unit("s", "  64k \n").unwrap(), 65536);
}

#[test]
fn size_error_messages() {
    let e = Config::parse_size_with_unit("chunk size", "3K").unwrap_err();
    assert_eq!(e.to_string(), "chunk size must be power of two but got 3072");
    let e = Config::parse_size_with_unit("chunk size", "32xb").unwrap_err();
    assert_eq!(e.to_string(), "Unknown unit for chunk size: XB");
    let e = Config::parse_size_with_unit("chunk size", "K").unwrap_err();
    assert_eq!(e.to_string(), "Invalid chunk size format: ");
    let e = Config::parse_size_with_unit("chunk size", "99999999999999999999").unwrap_err();
    assert_eq!(e.to_string(), "Invalid chunk size format: 99999999999999999999");
    let e = Config::parse_size_with_unit("chunk size", "0").unwrap_err();
    assert_eq!(e.to_string(), "chunk size must be power of two but got 0");
}

#[test]
fn size_overflow_is_refused() {
    assert!(Config::checked_parse_size("s", "17179869184G").is_none());
    assert_eq!(Config::checked_parse_size("s", "8589934592G").unwrap().unwrap(), 1 << 63);
    let v = args(&["-s", "a", "-i", "--chunk-size", "17179869184G"]);
    assert!(Config::parse_cli_checked(&v, Platform::Unix).is_none());
}

#[test]
fn parse_full_command_line() {
    let v = args(&["-t", "-s", "/dev/sdc", "--destination", "backup.dd", "--chunk-size", "1M", "--sector-size", "4K"]);
    match Config::parse_cli_from_iter(&v, Platform::Unix).unwrap() {
        Invocation::Run(c) => {
            assert!(matches!(c.source, Location::Drive(ref w) if w == "/dev/sdc"));
            assert!(matches!(c.destination, Location::Image(ref w) if w == "backup.dd"));
            assert!(c.truncate);
            assert!(!c.inspect);
            assert_eq!(c.chunk_size, 1 << 20);
            assert_eq!(c.sector_size, Some(4096));
        }
        Invocation::Help => panic!("expected a run"),
    }
}

#[test]
fn parse_defaults_in_inspection() {
    let v = args(&["-i", "-s", "card.img"]);
    match Config::parse_cli_from_iter(&v, Platform::Unix).unwrap() {
        Invocation::Run(c) => {
            assert!(c.inspect);
            assert!(matches!(c.destination, Location::Void));
            assert_eq!(c.chunk_size, 32 * 1024 * 1024);
            assert_eq!(c.sector_size, None);
        }
        Invocation::Help => panic!("expected a run"),
    }
}

#[test]
fn parse_help_and_errors() {
    assert!(matches!(
        Config::parse_cli_from_iter(&args(&["-s", "x", "--help"]), Platform::Unix),
        Ok(Invocation::Help)
    ));
    assert_eq!(error_of(&["-s"]), "Missign --source value");
    assert_eq!(error_of(&["-s", "x", "--chunk-size"]), "Missign --chunk-size value");
    assert_eq!(error_of(&["--bogus"]), "Unknown arg: --bogus");
    assert_eq!(error_of(&["-i"]), "--source is required");
    assert_eq!(error_of(&["-s", "x"]), "--destination is requied unless --inspect");
    assert_eq!(error_of(&["-s", "x", "-i", "--sector-size", "8K"]), "Invalid sector size format: 8K");
    assert_eq!(
        error_of(&["-s", "x", "-i", "--sector-size", "3000"]),
        "sector size must be power of two but got 3000"
    );
}

#[test]
fn locations_by_platform() {
    let w = "\\\\.\\PHYSICALDRIVE3".to_string();
    assert!(matches!(Location::from_str(w.clone(), Platform::Windows), Location::Drive(_)));
    assert!(matches!(Location::from_str(w.clone(), Platform::Unix), Location::Image(_)));
    assert!(matches!(Location::from_str("/dev/sdc".to_string(), Platform::Unix), Location::Drive(_)));
    assert!(matches!(Location::from_str("/dev/sdc".to_string(), Platform::Windows), Location::Image(_)));
    assert!(matches!(Location::from_str("/dev/sdc".to_string(), Platform::Other), Location::Image(_)));
    assert_eq!(Location::from_str(w, Platform::Windows).display(), "(drive) [\\\\.\\PHYSICALDRIVE3]");
    assert_eq!(Location::from_str("a.dd".to_string(), Platform::Unix).display(), "(file) [a.dd]");
    assert_eq!(Location::Void.display(), "(void) NONE");
}

fn sample_layout() -> Layout {
    let mut l = Layout::new(1 << 20);
    l.segments = vec![
        Segment { offset: 0, length: 3 << 20, essence: 0x11E60398, status: Status::Good },
        Segment { offset: 3 << 20, length: 1 << 20, essence: 0xDEADCEEB, status: Status::Bad },
        Segment { offset: 4 << 20, length: 5 << 20, essence: 0, status: Status::Ugly },
    ];
    l
}

#[test]
fn layout_as_csv() {
    let lines = layout_csv(&sample_layout());
    assert_eq!(
        lines,
        vec![
            "# rusdd layout (at 1.00 MiB stide)".to_string(),
            "# 0xSTART, 0xEND, 0xLEN, STATUS, COMMENT".to_string(),
            "0x0,0x300000,0x300000,0x11E60398,G,'readable data [300286872] (3.00 MiB)'".to_string(),
            "0x300000,0x400000,0x100000,0xDEADCEEB,B,'error reading [3735932651] (1.00 MiB)'".to_string(),
            "0x400000,0x900000,0x500000,0x00000000,U,'pattern: 0x00000000 (5.00 MiB)'".to_string(),
            "*".repeat(50),
        ]
    );
}

#[test]
fn banner_and_help() {
    let v = args(&["-s", "/dev/sdc", "-d", "out.dd", "-t"]);
    let Invocation::Run(c) = Config::parse_cli_from_iter(&v, Platform::Unix).unwrap() else {
        panic!("expected a run")
    };
    let b = c.banner();
    assert_eq!(b[1], "Really Useful Secure Digital Duplicator (v.0.1.0)");
    assert_eq!(b[2], "  IMAGING FROM: (drive) [/dev/sdc]");
    assert_eq!(b[3], "  Chunk size: 32.00 MiB");
    assert_eq!(b[4], "  Inspection: OFF");
    assert_eq!(b[5], "  Truncation: ON");
    assert_eq!(b[6], "  IMAGING INTO: (file) [out.dd]");
    let h = HelpLevel::Usage.text();
    assert_eq!(h.len(), 6);
    assert_eq!(h[0], "rusdd - Really Useful Secure Digital Duplicator (ver.0.1.0)");
    assert_eq!(h[5], "Try 'rusdd -h' for more information.");
    let h = HelpLevel::Extended.text();
    assert_eq!(h.len(), 7);
    assert!(h[6].contains("Examples: 512B, 256KiB, 32M, 1GiB"));
}

#[test]
fn imaging_report_lines() {
    let l = sample_layout();
    let dest = Location::Image("out.dd".to_string());
    let r = imaging_report(&l, true, true, &dest);
    assert_eq!(
        r,
        vec![
            "[NOTE] Recovery pass is not yet implemented".to_string(),
            "Full source size: 9437184 (9.00 MiB)".to_string(),
            "Stop point: 5242880 (5.00 MiB)".to_string(),
            "Trailing empty space [0x00000000]: 4.00 MiB skipped.".to_string(),
            "Image was written to (file) [out.dd] (5.00 MiB). Goodbye!".to_string(),
        ]
    );
    let r = imaging_report(&l, false, false, &dest);
    assert_eq!(
        r,
        vec![
            "Full source size: 9437184 (9.00 MiB)".to_string(),
            "Image was written to (file) [out.dd] (9.00 MiB). Goodbye!".to_string(),
        ]
    );
}

#[test]
fn imaging_report_with_a_short_uniform_tail_skips_nothing() {
    let mut l = Layout::new(4096);
    l.segments = vec![
        Segment { offset: 0, length: 4096, essence: 1, status: Status::Good },
        Segment { offset: 4096, length: 100, essence: 0, status: Status::Ugly },
    ];
    let dest = Location::Image("out.dd".to_string());
    let r = imaging_report(&l, true, false, &dest);
    assert_eq!(
        r,
        vec![
            "Full source size: 4196 (4.10 KiB)".to_string(),
            "Image was written to (file) [out.dd] (4.10 KiB). Goodbye!".to_string(),
        ]
    );
}
