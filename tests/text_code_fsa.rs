use rs_template::{Part, TextCodeFSA};

const PAGE_HEAD: &str = "<!DOCTYPE html>\r\n<html>\r\n    <head>\r\n        <title>";
const PAGE_TAIL: &str = "</title>\r\n    </head>\r\n</html>";

fn split(doc: &str) -> Vec<Part> {
    let mut fsa = TextCodeFSA::new();
    fsa.run(doc.to_string()).clone()
}

fn text(s: &str) -> Part {
    Part::Text(s.to_string())
}

fn code(s: &str) -> Part {
    Part::Code(s.to_string())
}

#[test]
fn text_code_fsa_it_works() {
    let test_file = format!("{PAGE_HEAD}<?rs \"hello world\" ?>{PAGE_TAIL}");
    let mut fsa = TextCodeFSA::new();
    let result = fsa.run(test_file);
    assert_eq!(result.len(), 3);
    assert!(matches!(result[0].clone(), Part::Text(content) if content == "<!DOCTYPE html>\r\n<html>\r\n    <head>\r\n        <title>"));
    assert!(matches!(result[1].clone(), Part::Code(content) if content == " \"hello world\" "));
    assert!(matches!(result[2].clone(), Part::Text(content) if content == "</title>\r\n    </head>\r\n</html>"));
}

#[test]
fn it_does_not_end_when_the_end_tag_is_inside_rust_string_literal() {
    let test_file = format!("{PAGE_HEAD}<?rs \"hello ?> world\" ?>{PAGE_TAIL}");
    let mut fsa = TextCodeFSA::new();
    let result = fsa.run(test_file);
    assert_eq!(result.len(), 3);
    assert!(matches!(result[0].clone(), Part::Text(content) if content == "<!DOCTYPE html>\r\n<html>\r\n    <head>\r\n        <title>"));
    assert!(matches!(result[1].clone(), Part::Code(content) if content == " \"hello ?> world\" "));
    assert!(matches!(result[2].clone(), Part::Text(content) if content == "</title>\r\n    </head>\r\n</html>"));
}

#[test]
fn it_does_not_end_when_the_end_tag_is_inside_rust_comment() {
    let test_file =
        format!("{PAGE_HEAD}<?rs \"hello ?> world\"; // some string\r\n        ?>{PAGE_TAIL}");
    let mut fsa = TextCodeFSA::new();
    let result = fsa.run(test_file);
    assert_eq!(result.len(), 3);
    assert!(matches!(result[0].clone(), Part::Text(content) if content == "<!DOCTYPE html>\r\n<html>\r\n    <head>\r\n        <title>"));
    assert!(matches!(result[1].clone(), Part::Code(content) if content == " \"hello ?> world\"; // some string\r\n        "));
    assert!(matches!(result[2].clone(), Part::Text(content) if content == "</title>\r\n    </head>\r\n</html>"));
}

#[test]
fn it_ends_the_code_part_when_end_tag_is_incorrectly_placed_inside_the_line_comment() {
    let test_file = format!("{PAGE_HEAD}<?rs \"hello ?> world\"; // some string ?>{PAGE_TAIL}");
    let mut fsa = TextCodeFSA::new();
    let result = fsa.run(test_file);
    assert_eq!(result.len(), 2);
    assert!(matches!(result[0].clone(), Part::Text(content) if content == "<!DOCTYPE html>\r\n<html>\r\n    <head>\r\n        <title>"));
    assert!(matches!(result[1].clone(), Part::Code(content) if content == " \"hello ?> world\"; // some string ?></title>\r\n    </head>\r\n</html>"));
}

#[test]
fn it_omits_starting_sequence_inside_code_part() {
    let mut fsa = TextCodeFSA::new();
    let result = fsa.run("<?rs<?rs".to_string());
    assert_eq!(result.len(), 1);
    assert!(matches!(result[0].clone(), Part::Code(content) if content == "<?rs"));
}

#[test]
fn it_handles_block_comments_correctly() {
    // Block comments are not consulted: the first end marker closes the region even
    // though it stands inside an open block comment.
    let result = split("A<?rs /* ?> */ ?>B");
    assert_eq!(result, vec![text("A"), code(" /* "), text(" */ ?>B")]);
}

#[test]
fn literal_example_splits_into_three() {
    assert_eq!(split("A<?rs \"x\" ?>B"), vec![text("A"), code(" \"x\" "), text("B")]);
}

#[test]
fn marker_inside_string_literal_is_kept() {
    assert_eq!(split("A<?rs \"?>\" ?>B"), vec![text("A"), code(" \"?>\" "), text("B")]);
}

#[test]
fn marker_inside_line_comment_is_kept() {
    assert_eq!(
        split("A<?rs let x = 1; // a ?> b\n ?>B"),
        vec![text("A"), code(" let x = 1; // a ?> b\n "), text("B")]
    );
}

#[test]
fn empty_document_gives_no_fragments() {
    assert!(split("").is_empty());
}

#[test]
fn plain_text_is_one_fragment() {
    assert_eq!(split("just ?> text"), vec![text("just ?> text")]);
}

#[test]
fn unterminated_code_region_is_accepted() {
    assert_eq!(split("a<?rs \"open"), vec![text("a"), code(" \"open")]);
}

#[test]
fn empty_code_region_merges_neighbouring_text() {
    assert_eq!(split("a<?rs?>b"), vec![text("ab")]);
}

#[test]
fn adjacent_code_regions_merge() {
    assert_eq!(split("<?rs a ?><?rs b ?>"), vec![code(" a  b ")]);
}

#[test]
fn multi_byte_characters_are_kept_whole() {
    assert_eq!(
        split("é<?rs \"ü?>\" ?>ß"),
        vec![text("é"), code(" \"ü?>\" "), text("ß")]
    );
}

#[test]
fn neighbouring_fragments_never_share_a_variant() {
    let result = split("x<?rs 1 ?>y<?rs 2 ?><?rs 3 ?>z<?rs?>w<?rs 4");
    assert!(!result.is_empty());
    for pair in result.windows(2) {
        assert_ne!(pair[0].is_text(), pair[1].is_text());
    }
}

#[test]
fn fragments_rebuild_the_document() {
    let doc = "<p><?rs let a = \"?>\"; ?></p>\n<?rs // c\n?>end";
    let mut rebuilt = String::new();
    for part in split(doc) {
        if part.is_text() {
            rebuilt.push_str(part.get_content());
        } else {
            rebuilt.push_str("<?rs");
            rebuilt.push_str(part.get_content());
            rebuilt.push_str("?>");
        }
    }
    assert_eq!(rebuilt, doc);
}

#[test]
fn content_and_variant_are_reported() {
    let result = split("t<?rs c ?>");
    assert!(result[0].is_text());
    assert!(!result[1].is_text());
    assert_eq!(result[0].get_content(), "t");
    assert_eq!(result[1].get_content(), " c ");
    assert!(!Part::EchoCode("e".to_string()).is_text());
}
