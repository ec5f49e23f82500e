use omapic::montage::{failure, ContactSheet};

#[test]
fn argv() {
    let sheet = ContactSheet {
        output: "/out/sheet.jpg".into(),
        columns: 5,
        thumb_size: 200,
        labels: true,
        background: "#000".into(),
        foreground: "#fff".into(),
        font: None,
    };
    let args = sheet.args(&["/a/1.jpg".into(), "/a/2.jpg".into()]);
    let args: Vec<_> = args.iter().map(|a| a.as_str()).collect();
    assert_eq!(args[0], "montage");
    let label = args.iter().position(|a| *a == "-label").unwrap();
    let first = args.iter().position(|a| *a == "/a/1.jpg").unwrap();
    assert!(label < first, "label must precede the images");
    assert_eq!(args[label + 1], "%t");
    assert!(args.windows(2).any(|w| w == ["-tile", "5x"]));
    assert!(args.windows(2).any(|w| w == ["-geometry", "200x200+6+6"]));
    assert_eq!(*args.last().unwrap(), "/out/sheet.jpg");
}

#[test]
fn the_whole_command_line() {
    let sheet = ContactSheet {
        output: "/o.jpg".into(),
        columns: 12,
        thumb_size: 64,
        labels: false,
        background: "#111".into(),
        foreground: "#eee".into(),
        font: Some("/f.ttf".into()),
    };
    assert_eq!(
        sheet.args(&["/x.png".into()]),
        [
            "montage", "-define", "jpeg:size=128x128", "-auto-orient", "-background", "#111", "-fill", "#eee", "-font",
            "/f.ttf", "-label", "", "/x.png", "-tile", "12x", "-geometry", "64x64+6+6", "/o.jpg"
        ]
    );
}

#[test]
fn magick_failure_is_its_first_line() {
    assert_eq!(failure(b"first\nsecond"), "first");
    assert_eq!(failure(b""), "magick failed");
    assert_eq!(failure(&[0xff, b'\n']), "\u{fffd}");
}
