use omapic::cli::{file_name, images_in_order, is_image, is_jpeg, natural_cmp, resolve, Arg};
use std::cmp::Ordering;

#[test]
fn natural_order() {
    let mut v = vec!["img10.jpg", "IMG2.jpg", "img1.jpg", "a.png", "img02.jpg"];
    v.sort_by(|a, b| natural_cmp(a, b));
    assert_eq!(v, ["a.png", "img1.jpg", "IMG2.jpg", "img02.jpg", "img10.jpg"]);
}

#[test]
fn extensions() {
    assert!(is_image("/x/a.JPG"));
    assert!(is_image("b.webp"));
    assert!(!is_image("notes.txt"));
    assert!(!is_image("jpg"));
}

#[test]
fn jpeg_extensions_ignore_case() {
    assert!(is_jpeg("/x/a.JPEG"));
    assert!(is_jpeg("b.jpg"));
    assert!(!is_jpeg("c.png"));
    assert!(!is_jpeg(".jpg"));
}

#[test]
fn natural_order_laws_on_examples() {
    assert_eq!(natural_cmp("img2.jpg", "img2.jpg"), Ordering::Equal);
    assert_eq!(natural_cmp("img2.jpg", "img10.jpg"), Ordering::Less);
    assert_eq!(natural_cmp("img10.jpg", "img2.jpg"), Ordering::Greater);
    assert_ne!(natural_cmp("img02.jpg", "img2.jpg"), Ordering::Equal);
}

#[test]
fn file_names() {
    assert_eq!(file_name("/pics/a b.jpg"), "a b.jpg");
    assert_eq!(file_name("/"), "");
    assert_eq!(file_name("dir/"), "dir");
}

#[test]
fn directory_scans_keep_images_in_natural_order() {
    let files = vec![
        "/d/b10.png".to_string(),
        "/d/notes.txt".to_string(),
        "/d/b2.PNG".to_string(),
        "/d/a.jpg".to_string(),
    ];
    assert_eq!(images_in_order(files), ["/d/a.jpg", "/d/b2.PNG", "/d/b10.png"]);
}

fn arg(path: &str, is_dir: bool, is_file: bool, listing: &[&str]) -> Arg {
    Arg { path: path.into(), is_dir, is_file, listing: listing.iter().map(|s| s.to_string()).collect() }
}

#[test]
fn resolving_arguments() {
    let current = vec!["/c/1.jpg".to_string()];
    let none = resolve(&vec![], &current);
    assert_eq!(none.paths, current);
    assert_eq!(none.select, None);

    let one = resolve(&vec![arg("/d/b.jpg", false, true, &["/d/a.jpg", "/d/b.jpg"])], &current);
    assert_eq!(one.paths, ["/d/a.jpg", "/d/b.jpg"]);
    assert_eq!(one.select, Some(1));

    let odd = resolve(&vec![arg("/d/x.raw", false, true, &["/d/a.jpg"])], &current);
    assert_eq!(odd.paths, ["/d/a.jpg", "/d/x.raw"]);
    assert_eq!(odd.select, Some(1));

    let many = resolve(
        &vec![
            arg("/d", true, false, &["/d/a.jpg", "/d/b.jpg"]),
            arg("/d/a.jpg", false, true, &[]),
            arg("/e/notes.txt", false, true, &[]),
            arg("/e/c.png", false, true, &[]),
        ],
        &current,
    );
    assert_eq!(many.paths, ["/d/a.jpg", "/d/b.jpg", "/e/c.png"]);
    assert_eq!(many.select, None);
}

#[test]
fn paths_are_compared_as_paths() {
    let current = Vec::new();
    // A trailing slash or a doubled one names the same file.
    let one = resolve(&vec![arg("/d/b.jpg/", false, false, &["/d/a.jpg", "/d/b.jpg"])], &current);
    assert_eq!(one.paths, ["/d/a.jpg", "/d/b.jpg"]);
    assert_eq!(one.select, Some(1));
    let many = resolve(
        &vec![arg("/d//a.jpg", false, true, &[]), arg("/d/./a.jpg", false, true, &[]), arg("/d/a.jpg", false, true, &[])],
        &current,
    );
    assert_eq!(many.paths, ["/d//a.jpg"]);
}
