use string_art::obsidian_link::{check_link, find_link, image_suffix_of, parse_obsidian_link};

fn s(text: &str) -> Option<String> {
    Some(text.to_string())
}

#[test]
fn all_four_parts() {
    let link = parse_obsidian_link("notes/file#Head line^blk1|shown text", false).unwrap();
    assert_eq!(link.filename, "notes/file");
    assert_eq!(link.head, s("Head line"));
    assert_eq!(link.label, s("blk1"));
    assert_eq!(link.aliases, s("shown text"));
    assert!(!link.embed);
    assert_eq!(link.image_suffix, None);
}

#[test]
fn file_name_alone() {
    let link = parse_obsidian_link("just a page", true).unwrap();
    assert_eq!(link.filename, "just a page");
    assert_eq!(link.head, None);
    assert_eq!(link.label, None);
    assert_eq!(link.aliases, None);
    assert!(link.embed);
    assert!(!link.is_image());
}

#[test]
fn pasted_picture_is_an_image() {
    let link =
        parse_obsidian_link("../../99-attach/Pasted image 20230712231411.png", true).unwrap();
    assert_eq!(link.filename, "../../99-attach/Pasted image 20230712231411.png");
    assert_eq!(link.image_suffix, s("png"));
    assert!(link.is_image());
    assert!(link.embed);
}

#[test]
fn empty_text_is_no_link() {
    assert!(parse_obsidian_link("", false).is_none());
}

#[test]
fn separator_at_the_start_gives_an_empty_file_name() {
    let link = parse_obsidian_link("#intro", false).unwrap();
    assert_eq!(link.filename, "");
    assert_eq!(link.head, s("intro"));
}

#[test]
fn part_after_a_trailing_separator_is_missing() {
    let link = parse_obsidian_link("page#", false).unwrap();
    assert_eq!(link.filename, "page");
    assert_eq!(link.head, None);
    let link = parse_obsidian_link("page|", false).unwrap();
    assert_eq!(link.aliases, None);
}

#[test]
fn aliases_keep_later_separators() {
    let link = parse_obsidian_link("page|a#b^c|d", false).unwrap();
    assert_eq!(link.filename, "page");
    assert_eq!(link.head, None);
    assert_eq!(link.label, None);
    assert_eq!(link.aliases, s("a#b^c|d"));
}

#[test]
fn a_repeated_separator_replaces_the_part() {
    let link = parse_obsidian_link("page#one#two", false).unwrap();
    assert_eq!(link.filename, "page");
    assert_eq!(link.head, s("two"));
    let link = parse_obsidian_link("page^lab#head", false).unwrap();
    assert_eq!(link.label, s("lab"));
    assert_eq!(link.head, s("head"));
}

#[test]
fn empty_part_between_separators_is_kept_empty() {
    let link = parse_obsidian_link("page#^lab", false).unwrap();
    assert_eq!(link.head, s(""));
    assert_eq!(link.label, s("lab"));
}

#[test]
fn picture_with_size_alias() {
    let link = parse_obsidian_link("shots/Photo.JPG|200", true).unwrap();
    assert_eq!(link.filename, "shots/Photo.JPG");
    assert_eq!(link.aliases, s("200"));
    assert_eq!(link.image_suffix, s("JPG"));
}

#[test]
fn non_ascii_text_is_split_by_characters() {
    let link = parse_obsidian_link("\u{4fb5}\u{5bb3}\u{8bfe}#\u{6807}\u{9898}|\u{522b}\u{540d}", false)
        .unwrap();
    assert_eq!(link.filename, "\u{4fb5}\u{5bb3}\u{8bfe}");
    assert_eq!(link.head, s("\u{6807}\u{9898}"));
    assert_eq!(link.aliases, s("\u{522b}\u{540d}"));
}

#[test]
fn picture_formats_in_any_case() {
    assert_eq!(image_suffix_of("a.png"), s("png"));
    assert_eq!(image_suffix_of("a.PnG"), s("PnG"));
    assert_eq!(image_suffix_of("a.jpeg"), s("jpeg"));
    assert_eq!(image_suffix_of("a.JPEG"), s("JPEG"));
    assert_eq!(image_suffix_of("a.jpg"), s("jpg"));
    assert_eq!(image_suffix_of("a.gif"), s("gif"));
    assert_eq!(image_suffix_of("archive.tar.GIF"), s("GIF"));
}

#[test]
fn other_suffixes_are_no_pictures() {
    assert_eq!(image_suffix_of("a.txt"), None);
    assert_eq!(image_suffix_of("a.pngx"), None);
    assert_eq!(image_suffix_of("a.pn"), None);
    assert_eq!(image_suffix_of("png"), None);
    assert_eq!(image_suffix_of("a.png."), None);
    assert_eq!(image_suffix_of("a.png.md"), None);
    assert_eq!(image_suffix_of(""), None);
    assert_eq!(image_suffix_of("a.jpe"), None);
    assert_eq!(image_suffix_of("a.\u{212a}if"), None);
}

#[test]
fn page_link_address_and_text() {
    let link = parse_obsidian_link("notes/file#Head|shown", false).unwrap();
    assert_eq!(link.href(), "notes/file.html#Head");
    assert_eq!(link.title(), "shown");
    let link = parse_obsidian_link("notes/file", false).unwrap();
    assert_eq!(link.href(), "notes/file.html");
    assert_eq!(link.title(), "notes/file");
}

#[test]
fn link_opens_with_two_brackets() {
    assert!(check_link("[[page]] and more", false));
    assert!(check_link("![[pic.png]]", true));
    assert!(!check_link("![[pic.png]]", false));
    assert!(!check_link("[[page]]", true));
    assert!(!check_link("[page]", false));
    assert!(!check_link("[", false));
    assert!(!check_link("", false));
    assert!(!check_link("![", true));
    assert!(!check_link("!", true));
}

#[test]
fn link_at_the_start_is_read_with_its_length() {
    let (link, taken) = find_link("[[page#head|text]] and more", false).unwrap();
    assert_eq!(link.filename, "page");
    assert_eq!(link.head, s("head"));
    assert_eq!(link.aliases, s("text"));
    assert!(!link.embed);
    assert_eq!(taken, 18);
}

#[test]
fn embedded_picture_is_read_with_its_length() {
    let text = "![[../../99-attach/Pasted image 20230712231411.png]]";
    let (link, taken) = find_link(text, true).unwrap();
    assert_eq!(link.filename, "../../99-attach/Pasted image 20230712231411.png");
    assert_eq!(link.image_suffix, s("png"));
    assert!(link.embed);
    assert_eq!(taken, text.chars().count());
}

#[test]
fn length_counts_characters() {
    let (link, taken) = find_link("[[\u{4fb5}\u{5bb3}]]x", false).unwrap();
    assert_eq!(link.filename, "\u{4fb5}\u{5bb3}");
    assert_eq!(taken, 6);
}

#[test]
fn unclosed_or_nested_link_is_none() {
    assert!(find_link("[[page", false).is_none());
    assert!(find_link("[[page]", false).is_none());
    assert!(find_link("[[a [[b]] c]]", false).is_none());
    assert!(find_link("[[]]", false).is_none());
    assert!(find_link("no link", false).is_none());
    assert!(find_link("[[page]]", true).is_none());
}

#[test]
fn first_closing_brackets_end_the_link() {
    let (link, taken) = find_link("[[a]] [[b]]", false).unwrap();
    assert_eq!(link.filename, "a");
    assert_eq!(taken, 5);
    let (link, taken) = find_link("[[a]]]", false).unwrap();
    assert_eq!(link.filename, "a");
    assert_eq!(taken, 5);
    let (link, _) = find_link("[[a[b]]", false).unwrap();
    assert_eq!(link.filename, "a[b");
}
