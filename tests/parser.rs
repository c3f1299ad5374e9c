use sbm::parser::{parse_bookmark, parse_categories, parse_header, split_pipe, ParseError};
use sbm::{Bookmark, Category, Header, Sbm};

#[test]
fn test_parse_bookmark() {
    let line = "Rust|Systems programming language|https://www.rust-lang.org/";
    let bookmark = parse_bookmark(line).unwrap();
    assert_eq!(bookmark.name, "Rust");
    assert_eq!(bookmark.description, "Systems programming language");
    assert_eq!(bookmark.url, "https://www.rust-lang.org/");
}

#[test]
fn test_parse_header() {
    let line = "Programming Languages";
    let header = parse_header(line).unwrap();
    assert_eq!(header.name, "Programming Languages");
    assert_eq!(header.icon, None);

    let line = "Programming Languages|ğŸ‘¨â€ğŸ’»";
    let header = parse_header(line).unwrap();
    assert_eq!(header.name, "Programming Languages");
    assert_eq!(header.icon, Some("ğŸ‘¨â€ğŸ’»".to_string()));
}

#[test]
fn test_parse_categories() {
    let data = r#"
#Programming Languages
Rust|The Rust Programming Language|https://www.rust-lang.org/
Python|Python Programming Language|https://www.python.org/
// This is a comment
#Web Development|ğŸŒ
HTML|Hypertext Markup Language|https://developer.mozilla.org/en-US/docs/Web/HTML
CSS|Cascading Style Sheets|https://developer.mozilla.org/en-US/docs/Web/CSS
"#;
    let categories = parse_categories(data).unwrap();
    assert_eq!(categories.len(), 2);
    assert_eq!(categories[0].header.name, "Programming Languages");
    assert_eq!(categories[0].bookmarks.len(), 2);
    assert_eq!(categories[1].header.name, "Web Development");
    assert_eq!(categories[1].header.icon, Some("ğŸŒ".to_string()));
    assert_eq!(categories[1].bookmarks.len(), 2);
}

#[test]
fn test_bad_bookmark() {
    let line = "Rust|Systems programming language";
    let bookmark = parse_bookmark(line);
    assert!(bookmark.is_err());
}

#[test]
fn test_bad_header() {
    let line = "Programming Languages|ğŸ‘¨â€ğŸ’»|Extra";
    let header = parse_header(line);
    assert!(header.is_err());
}

#[test]
fn split_pipe_keeps_every_field() {
    let line = "Rust|Systems programming language|https://www.rust-lang.org/";
    let parts = split_pipe(line);
    assert_eq!(parts, vec!["Rust", "Systems programming language", "https://www.rust-lang.org/"]);
    assert_eq!(split_pipe(""), vec![""]);
    assert_eq!(split_pipe("a||"), vec!["a", "", ""]);
}

#[test]
fn bookmark_fields_are_trimmed() {
    let b = parse_bookmark("  Rust \t|  a  b | url\r").unwrap();
    assert_eq!(b, Bookmark::new("Rust", "a  b", "url"));
}

#[test]
fn bookmark_with_four_fields_is_malformed() {
    assert_eq!(parse_bookmark("a|b|c|d"), Err(ParseError::MalformedBookmark));
    assert_eq!(parse_bookmark("a|b"), Err(ParseError::MalformedBookmark));
}

#[test]
fn header_with_empty_icon_keeps_it() {
    let h = parse_header(" Name |  ").unwrap();
    assert_eq!(h, Header::new("Name", Some("")));
    assert_eq!(h.render(), "#Name|");
}

#[test]
fn minimal_bookmark_under_plain_header() {
    let text = "#Programming Languages\nRust|Systems programming language|https://www.rust-lang.org/";
    let d = Sbm::parse(text).unwrap();
    assert_eq!(d.0.len(), 1);
    assert_eq!(d.0[0].header, Header::new("Programming Languages", None));
    assert_eq!(
        d.0[0].bookmarks,
        vec![Bookmark::new("Rust", "Systems programming language", "https://www.rust-lang.org/")]
    );
    assert_eq!(d.render(), text);
}

#[test]
fn two_categories_with_comments_and_blanks() {
    let text = "#Programming Languages\nRust|The Rust Programming Language|https://www.rust-lang.org/\nPython|Python Programming Language|https://www.python.org/\n// a comment\n\n#Web Development|\u{1F310}\nHTML|Hypertext Markup Language|https://developer.mozilla.org/en-US/docs/Web/HTML\nCSS|Cascading Style Sheets|https://developer.mozilla.org/en-US/docs/Web/CSS\n";
    let cs = parse_categories(text).unwrap();
    assert_eq!(cs.len(), 2);
    assert_eq!(cs[0].header.name, "Programming Languages");
    assert_eq!(cs[0].bookmarks.len(), 2);
    assert_eq!(cs[0].bookmarks[1].name, "Python");
    assert_eq!(cs[1].header.icon, Some("\u{1F310}".to_string()));
    assert_eq!(cs[1].bookmarks.len(), 2);
    assert_eq!(cs[1].bookmarks[0].name, "HTML");
    assert_eq!(cs[1].bookmarks[1].name, "CSS");
}

#[test]
fn malformed_bookmark_under_header() {
    let r = parse_categories("#Languages\nRust|Systems programming language");
    assert_eq!(r, Err(ParseError::MalformedBookmark));
}

#[test]
fn malformed_header_line() {
    let r = parse_categories("#Programming Languages|icon|extra");
    assert_eq!(r, Err(ParseError::MalformedHeader));
}

#[test]
fn bookmark_before_any_header() {
    assert_eq!(parse_categories("Rust|desc|url\n#Later"), Err(ParseError::BookmarkBeforeHeader));
    assert_eq!(parse_categories("// c\n\nx\n#H"), Err(ParseError::BookmarkBeforeHeader));
}

#[test]
fn empty_input_is_empty_document() {
    assert_eq!(parse_categories("").unwrap().len(), 0);
    assert_eq!(Sbm::parse("").unwrap().render(), "");
}

#[test]
fn comments_and_blanks_only_is_empty_document() {
    assert_eq!(parse_categories("// one\n   \n\t\n//two\n\n").unwrap().len(), 0);
}

#[test]
fn header_without_bookmarks_is_empty_category() {
    let cs = parse_categories("#A\n#B|b\nx|y|z\n#C").unwrap();
    assert_eq!(cs.len(), 3);
    assert_eq!(cs[0].bookmarks.len(), 0);
    assert_eq!(cs[1].bookmarks.len(), 1);
    assert_eq!(cs[2].bookmarks.len(), 0);
    assert_eq!(cs[2].header, Header::new("C", None));
}

#[test]
fn parser_ignores_blanks_comments_and_padding() {
    let plain = parse_categories("#A|i\nn|d|u").unwrap();
    let padded = parse_categories("\n// c\n#  A |  i \n\n   \n  n |d\t|  u  \r\n// end\n").unwrap();
    assert_eq!(plain, padded);
}

#[test]
fn render_then_parse_gives_back_the_document() {
    let d = Sbm::new(vec![
        Category {
            header: Header::new("A", Some("")),
            bookmarks: vec![Bookmark::new("n", "", "u"), Bookmark::new("", "d", "")],
        },
        Category::new(Header::new("B", None)),
    ]);
    let text = d.render();
    assert_eq!(text, "#A|\nn||u\n|d|\n#B");
    assert_eq!(Sbm::parse(&text).unwrap(), d);
}

#[test]
fn parse_then_render_is_stable() {
    let text = "  \n#  Tools | T \n a | b | c \n// skip\n#Empty\n";
    let d = Sbm::parse(text).unwrap();
    let again = Sbm::parse(&d.render()).unwrap();
    assert_eq!(again, d);
    assert_eq!(d.render(), "#Tools|T\na|b|c\n#Empty");
}

#[test]
fn category_with_bookmarks_renders_each_line() {
    let mut c = Category::new(Header::new("H", None));
    c.bookmarks.push(Bookmark::new("a", "b", "c"));
    c.bookmarks.push(Bookmark::new("d", "e", "f"));
    assert_eq!(c.render(), "#H\na|b|c\nd|e|f");
    assert_eq!(Category::new(Header::new("H", Some("i"))).render(), "#H|i");
    assert_eq!(Bookmark::new("x", "y", "z").render(), "x|y|z");
}

#[test]
fn parsed_lines_split_back_into_their_fields() {
    let d = Sbm::parse("#H|i\n a | b | c \n#G\nx|y|z").unwrap();
    for c in &d.0 {
        let header_line = c.header.render();
        let fields = split_pipe(&header_line[1..]);
        assert!(fields.len() == 1 || fields.len() == 2);
        for b in &c.bookmarks {
            let line = b.render();
            assert_eq!(split_pipe(&line), vec![b.name.as_str(), b.description.as_str(), b.url.as_str()]);
        }
    }
}

#[test]
fn categories_and_bookmarks_keep_source_order() {
    let cs = parse_categories("#Z\nc|1|u\na|2|u\n#A\nb|3|u\n#M").unwrap();
    let names: Vec<&str> = cs.iter().map(|c| c.header.name.as_str()).collect();
    assert_eq!(names, vec!["Z", "A", "M"]);
    let marks: Vec<&str> = cs[0].bookmarks.iter().map(|b| b.name.as_str()).collect();
    assert_eq!(marks, vec!["c", "a"]);
    assert_eq!(cs[1].bookmarks[0].description, "3");
}

#[test]
fn indented_hash_line_is_a_bookmark() {
    let cs = parse_categories("#H\n  #a|b|c").unwrap();
    assert_eq!(cs.len(), 1);
    assert_eq!(cs[0].bookmarks[0].name, "#a");
}

#[test]
fn header_with_three_fields_is_malformed() {
    assert_eq!(parse_header("a|b|c"), Err(ParseError::MalformedHeader));
    assert_eq!(parse_header("a|b|c|d"), Err(ParseError::MalformedHeader));
}

#[test]
fn each_error_has_a_message() {
    assert_eq!(ParseError::MalformedBookmark.message(), "bookmark line does not have three fields");
    assert_eq!(ParseError::MalformedHeader.message(), "header line does not have one or two fields");
    assert_eq!(ParseError::BookmarkBeforeHeader.message(), "bookmark line comes before any header");
}
