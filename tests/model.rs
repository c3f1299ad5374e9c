use sbm::{Bookmark, Category, Header, Sbm};

#[test]
fn test_bookmark_new() {
    let bookmark = Bookmark::new(
        "Rust",
        "Systems programming language",
        "https://www.rust-lang.org/",
    );
    assert_eq!(bookmark.name, "Rust");
    assert_eq!(bookmark.description, "Systems programming language");
    assert_eq!(bookmark.url, "https://www.rust-lang.org/");
}

#[test]
fn test_header_new() {
    let header = Header::new("Programming Languages", None);
    assert_eq!(header.name, "Programming Languages");
    assert_eq!(header.icon, None);

    let header = Header::new("Programming Languages", Some("👨‍💻"));
    assert_eq!(header.name, "Programming Languages");
    assert_eq!(header.icon, Some("👨‍💻".to_string()));
}

#[test]
fn test_category_new() {
    let header = Header::new("Programming Languages", None);
    let category = Category::new(header);
    assert_eq!(category.header.name, "Programming Languages");
    assert_eq!(category.header.icon, None);
    assert_eq!(category.bookmarks.len(), 0);
}

#[test]
fn test_sbm_new() {
    let header = Header::new("Programming Languages", None);
    let category = Category::new(header);
    let sbm = Sbm::new(vec![category]);
    assert_eq!(sbm.0.len(), 1);
}

#[test]
fn test_sbm_display() {
    let sbm = Sbm(vec![
        Category {
            header: Header::new("Programming Languages", None),
            bookmarks: vec![Bookmark::new(
                "Rust",
                "Systems programming language",
                "https://www.rust-lang.org/",
            )],
        },
        Category {
            header: Header::new("Web Development", Some("🌐")),
            bookmarks: vec![Bookmark::new(
                "MDN",
                "Web documentation",
                "https://developer.mozilla.org/",
            )],
        },
    ]);
    assert_eq!(
        sbm.render(),
        "#Programming Languages\nRust|Systems programming language|https://www.rust-lang.org/\n#Web Development|🌐\nMDN|Web documentation|https://developer.mozilla.org/"
    );
}
