//! Wiki links of the form `filename#head^label|aliases`.

use vstd::prelude::*;
use vstd::string::*;

verus! {

/// A parsed wiki link.
#[derive(Debug)]
pub struct ObsidianLinkNode {
    /// The file the link points to.
    pub filename: String,
    /// The heading after `#`.
    pub head: Option<String>,
    /// The block label after `^`.
    pub label: Option<String>,
    /// The text to show, after `|`.
    pub aliases: Option<String>,
    /// Whether the link embeds its target.
    pub embed: bool,
    /// The extension of the file name where it is that of a picture.
    pub image_suffix: Option<String>,
}

/// A parsed wiki link as plain mathematics.
pub struct LinkModel {
    pub filename: Seq<char>,
    pub head: Option<Seq<char>>,
    pub label: Option<Seq<char>>,
    pub aliases: Option<Seq<char>>,
    pub embed: bool,
    pub image_suffix: Option<Seq<char>>,
}

/// The parts of a link found so far.
pub struct LinkParts {
    pub filename: Option<Seq<char>>,
    pub head: Option<Seq<char>>,
    pub label: Option<Seq<char>>,
    pub aliases: Option<Seq<char>>,
}

/// The state of the scan: the parts found, where the part that is being
/// read starts, and which part it is (0 file name, 1 head, 2 label, 3
/// aliases).
pub struct Scan {
    pub parts: LinkParts,
    pub prev: int,
    pub status: int,
}

/// The content of an optional string.
pub open spec fn text_of(o: Option<String>) -> Option<Seq<char>> {
    match o {
        Some(s) => Some(s@),
        None => None,
    }
}

impl View for ObsidianLinkNode {
    type V = LinkModel;

    open spec fn view(&self) -> LinkModel {
        LinkModel {
            filename: self.filename@,
            head: text_of(self.head),
            label: text_of(self.label),
            aliases: text_of(self.aliases),
            embed: self.embed,
            image_suffix: text_of(self.image_suffix),
        }
    }
}

/// Which part a separator opens: 1 for `#`, 2 for `^`, 3 for `|`, and 0 for
/// a character that is no separator.
pub open spec fn separator(c: char) -> int {
    if c == '#' {
        1
    } else if c == '^' {
        2
    } else if c == '|' {
        3
    } else {
        0
    }
}

/// `parts` with the part of number `status` set to `v`.
pub open spec fn assign(parts: LinkParts, status: int, v: Option<Seq<char>>) -> LinkParts {
    if status == 0 {
        LinkParts { filename: v, ..parts }
    } else if status == 1 {
        LinkParts { head: v, ..parts }
    } else if status == 2 {
        LinkParts { label: v, ..parts }
    } else {
        LinkParts { aliases: v, ..parts }
    }
}

/// The scan after the first `k` characters. A separator closes the part
/// that is being read, even an empty one, and opens its own; after `|`
/// the rest is read as one part, separators included.
pub open spec fn scan(s: Seq<char>, k: int) -> Scan
    decreases k,
{
    if k <= 0 {
        Scan {
            parts: LinkParts { filename: None, head: None, label: None, aliases: None },
            prev: 0,
            status: 0,
        }
    } else {
        let st = scan(s, k - 1);
        if st.status == 3 || separator(s[k - 1]) == 0 {
            st
        } else {
            Scan {
                parts: assign(st.parts, st.status, Some(s.subrange(st.prev, k - 1))),
                prev: k,
                status: separator(s[k - 1]),
            }
        }
    }
}

/// The parts of a whole link text: what is left after the last separator
/// is the last part, or no part where nothing is left.
pub open spec fn parts_of(s: Seq<char>) -> LinkParts {
    let st = scan(s, s.len() as int);
    let rest = if st.prev < s.len() {
        Some(s.subrange(st.prev, s.len() as int))
    } else {
        None
    };
    assign(st.parts, st.status, rest)
}

/// Place of the last `.` among the first `k` characters.
pub open spec fn last_dot(s: Seq<char>, k: int) -> Option<int>
    decreases k,
{
    if k <= 0 {
        None
    } else if s[k - 1] == '.' {
        Some(k - 1)
    } else {
        last_dot(s, k - 1)
    }
}

/// The lower-case form of an ASCII capital; any other character itself.
pub open spec fn ascii_lower(c: char) -> char {
    if 65 <= c as u32 <= 90 {
        ((c as u32 + 32) as u8) as char
    } else {
        c
    }
}

/// Whether `s` is `a b c` up to the case of ASCII letters.
pub open spec fn spells3(s: Seq<char>, a: char, b: char, c: char) -> bool {
    s.len() == 3 && ascii_lower(s[0]) == a && ascii_lower(s[1]) == b && ascii_lower(s[2]) == c
}

/// Whether `s` names a picture format: `png`, `jpeg`, `jpg` or `gif`, in
/// any case.
pub open spec fn is_image(s: Seq<char>) -> bool {
    ||| spells3(s, 'p', 'n', 'g')
    ||| spells3(s, 'j', 'p', 'g')
    ||| spells3(s, 'g', 'i', 'f')
    ||| (s.len() == 4 && ascii_lower(s[0]) == 'j' && ascii_lower(s[1]) == 'p' && ascii_lower(s[2])
        == 'e' && ascii_lower(s[3]) == 'g')
}

/// What follows the last `.` of a file name, where that names a picture
/// format.
pub open spec fn image_suffix(f: Seq<char>) -> Option<Seq<char>> {
    match last_dot(f, f.len() as int) {
        Some(d) => {
            let suffix = f.subrange(d + 1, f.len() as int);
            if is_image(suffix) {
                Some(suffix)
            } else {
                None
            }
        },
        None => None,
    }
}

/// The link that a text stands for; none where it has no file name part.
pub open spec fn link_of(s: Seq<char>, embed: bool) -> Option<LinkModel> {
    let p = parts_of(s);
    match p.filename {
        Some(f) => Some(
            LinkModel {
                filename: f,
                head: p.head,
                label: p.label,
                aliases: p.aliases,
                embed,
                image_suffix: image_suffix(f),
            },
        ),
        None => None,
    }
}

/// The address a link to a page points to: the file name with `.html`, and
/// `#` with the heading where the link names one.
pub open spec fn href_of(link: LinkModel) -> Seq<char> {
    match link.head {
        Some(h) => link.filename + ".html"@ + "#"@ + h,
        None => link.filename + ".html"@,
    }
}

/// The text a link to a page shows: its aliases, or else the file name.
pub open spec fn title_of(link: LinkModel) -> Seq<char> {
    match link.aliases {
        Some(a) => a,
        None => link.filename,
    }
}

impl ObsidianLinkNode {
    /// The address of the page this link points to.
    pub fn href(&self) -> (r: String)
        ensures
            r@ == href_of(self@),
    {
        let mut out: String = self.filename.clone();
        out.append(".html");
        match &self.head {
            Some(h) => {
                out.append("#");
                out.append(h.as_str());
            },
            None => {},
        }
        out
    }

    /// The text this link shows.
    pub fn title(&self) -> (r: String)
        ensures
            r@ == title_of(self@),
    {
        match &self.aliases {
            Some(a) => a.clone(),
            None => self.filename.clone(),
        }
    }

    /// Whether this link points to a picture.
    pub fn is_image(&self) -> (r: bool)
        ensures
            r == self@.image_suffix.is_some(),
    {
        self.image_suffix.is_some()
    }
}

fn lower(c: char) -> (r: char)
    ensures
        r == ascii_lower(c),
{
    let d: u32 = c as u32;
    if 65 <= d && d <= 90 {
        ((d + 32) as u8) as char
    } else {
        c
    }
}

fn names_image(s: &str) -> (r: bool)
    ensures
        r == is_image(s@),
{
    let n: usize = s.unicode_len();
    if n == 3 {
        let a: char = lower(s.get_char(0));
        let b: char = lower(s.get_char(1));
        let c: char = lower(s.get_char(2));
        (a == 'p' && b == 'n' && c == 'g') || (a == 'j' && b == 'p' && c == 'g') || (a == 'g' && b
            == 'i' && c == 'f')
    } else if n == 4 {
        let a: char = lower(s.get_char(0));
        let b: char = lower(s.get_char(1));
        let c: char = lower(s.get_char(2));
        let d: char = lower(s.get_char(3));
        a == 'j' && b == 'p' && c == 'e' && d == 'g'
    } else {
        false
    }
}

/// The picture extension of a file name, if it has one.
pub fn image_suffix_of(filename: &str) -> (r: Option<String>)
    ensures
        text_of(r) == image_suffix(filename@),
{
    let n: usize = filename.unicode_len();
    let mut dot: Option<usize> = None;
    let mut i: usize = 0;
    while i < n
        invariant
            i <= n,
            n == filename@.len(),
            match dot {
                Some(d) => last_dot(filename@, i as int) == Some(d as int) && d < i,
                None => last_dot(filename@, i as int) is None,
            },
        decreases n - i,
    {
        if filename.get_char(i) == '.' {
            dot = Some(i);
        }
        i += 1;
    }
    match dot {
        Some(d) => {
            let suffix = filename.substring_char(d + 1, n);
            if names_image(suffix) {
                Some(suffix.to_owned())
            } else {
                None
            }
        },
        None => None,
    }
}

/// Splits `filename#head^label|aliases` into its parts. Every part but
/// the file name may be missing; a text without a file name part, such as
/// the empty text, is no link.
pub fn parse_obsidian_link(input: &str, embed: bool) -> (r: Option<ObsidianLinkNode>)
    ensures
        match r {
            Some(node) => link_of(input@, embed) == Some(node@),
            None => link_of(input@, embed) is None,
        },
{
    let n: usize = input.unicode_len();
    let mut filename: Option<String> = None;
    let mut head: Option<String> = None;
    let mut label: Option<String> = None;
    let mut aliases: Option<String> = None;
    let mut prev: usize = 0;
    let mut status: u8 = 0;
    let mut i: usize = 0;
    while i < n
        invariant
            i <= n,
            n == input@.len(),
            prev <= i,
            status <= 3,
            prev == scan(input@, i as int).prev,
            status == scan(input@, i as int).status,
            text_of(filename) == scan(input@, i as int).parts.filename,
            text_of(head) == scan(input@, i as int).parts.head,
            text_of(label) == scan(input@, i as int).parts.label,
            text_of(aliases) == scan(input@, i as int).parts.aliases,
        decreases n - i,
    {
        let c: char = input.get_char(i);
        let kind: u8 = if c == '#' {
            1
        } else if c == '^' {
            2
        } else if c == '|' {
            3
        } else {
            0
        };
        if status != 3 && kind != 0 {
            let value: String = input.substring_char(prev, i).to_owned();
            if status == 0 {
                filename = Some(value);
            } else if status == 1 {
                head = Some(value);
            } else {
                label = Some(value);
            }
            prev = i + 1;
            status = kind;
        }
        i += 1;
    }
    let rest: Option<String> = if prev < n {
        Some(input.substring_char(prev, n).to_owned())
    } else {
        None
    };
    if status == 0 {
        filename = rest;
    } else if status == 1 {
        head = rest;
    } else if status == 2 {
        label = rest;
    } else {
        aliases = rest;
    }
    match filename {
        Some(name) => {
            let suffix: Option<String> = image_suffix_of(name.as_str());
            Some(ObsidianLinkNode { filename: name, head, label, aliases, embed, image_suffix: suffix })
        },
        None => None,
    }
}

/// Whether `[[` stands at place `i`.
pub open spec fn opens_at(s: Seq<char>, i: int) -> bool {
    0 <= i && i + 1 < s.len() && s[i] == '[' && s[i + 1] == '['
}

/// Whether `]]` stands at place `i`.
pub open spec fn closes_at(s: Seq<char>, i: int) -> bool {
    0 <= i && i + 1 < s.len() && s[i] == ']' && s[i + 1] == ']'
}

/// The place of the first `]]` from place `i` on, unless a `[[` comes
/// before it or none comes at all.
pub open spec fn first_close(s: Seq<char>, i: int) -> Option<int>
    decreases s.len() - i,
{
    if i < 0 || i + 1 >= s.len() {
        None
    } else if closes_at(s, i) {
        Some(i)
    } else if opens_at(s, i) {
        None
    } else {
        first_close(s, i + 1)
    }
}

/// Where the text of a link starts in a text that opens one: behind `[[`,
/// or behind `![[` for an embedding link.
pub open spec fn link_start(embed: bool) -> int {
    if embed {
        3
    } else {
        2
    }
}

/// Whether a text opens a link: with `[[`, or with `![[` for an embedding
/// link.
pub open spec fn opens_link(s: Seq<char>, embed: bool) -> bool {
    if embed {
        s.len() > 0 && s[0] == '!' && opens_at(s, 1)
    } else {
        opens_at(s, 0)
    }
}

/// The link at the start of a text, and the number of characters it takes
/// with its brackets.
pub open spec fn link_at(s: Seq<char>, embed: bool) -> Option<(LinkModel, int)> {
    if !opens_link(s, embed) {
        None
    } else {
        match first_close(s, link_start(embed)) {
            Some(r) => match link_of(s.subrange(link_start(embed), r), embed) {
                Some(link) => Some((link, r + 2)),
                None => None,
            },
            None => None,
        }
    }
}

/// What `first_close` finds is the first `]]`, with neither `]]` nor `[[`
/// before it; where it finds nothing, every `]]` has a `[[` before it.
pub proof fn lemma_first_close(s: Seq<char>, i: int)
    requires
        0 <= i,
    ensures
        match first_close(s, i) {
            Some(r) => i <= r && closes_at(s, r) && forall|j: int|
                i <= j < r ==> !closes_at(s, j) && !opens_at(s, j),
            None => forall|r: int|
                i <= r && closes_at(s, r) ==> exists|j: int| i <= j < r && opens_at(s, j),
        },
    decreases s.len() - i,
{
    if i + 1 < s.len() && !closes_at(s, i) {
        if opens_at(s, i) {
            assert forall|r: int| i <= r && closes_at(s, r) implies exists|j: int|
                i <= j < r && opens_at(s, j) by {
                assert(i <= i < r && opens_at(s, i));
            }
        } else {
            lemma_first_close(s, i + 1);
            if first_close(s, i + 1) is None {
                assert forall|r: int| i <= r && closes_at(s, r) implies exists|j: int|
                    i <= j < r && opens_at(s, j) by {
                    let j = choose|j: int| i + 1 <= j < r && opens_at(s, j);
                    assert(i <= j < r && opens_at(s, j));
                }
            }
        }
    }
}

/// Whether `text` opens a link, embedding or not.
pub fn check_link(text: &str, embed: bool) -> (r: bool)
    ensures
        r == opens_link(text@, embed),
{
    let n: usize = text.unicode_len();
    let at: usize = if embed {
        1
    } else {
        0
    };
    if n < at + 2 {
        return false;
    }
    if embed && text.get_char(0) != '!' {
        return false;
    }
    text.get_char(at) == '[' && text.get_char(at + 1) == '['
}

/// Reads the link at the start of `text`. Returns it with the number of
/// characters that it takes, brackets included; `None` where `text` opens
/// no link, the link is not closed before another one opens, or its text
/// has no file name part.
pub fn find_link(text: &str, embed: bool) -> (r: Option<(ObsidianLinkNode, usize)>)
    ensures
        match r {
            Some(found) => link_at(text@, embed) == Some((found.0@, found.1 as int)),
            None => link_at(text@, embed) is None,
        },
{
    if !check_link(text, embed) {
        return None;
    }
    let n: usize = text.unicode_len();
    let start: usize = if embed {
        3
    } else {
        2
    };
    let mut i: usize = start;
    while i < n - 1
        invariant
            2 <= n,
            start <= i <= n,
            n == text@.len(),
            start == link_start(embed),
            opens_link(text@, embed),
            first_close(text@, start as int) == first_close(text@, i as int),
        decreases n - i,
    {
        let c: char = text.get_char(i);
        let d: char = text.get_char(i + 1);
        if c == ']' && d == ']' {
            assert(first_close(text@, i as int) == Some(i as int));
            let inner = text.substring_char(start, i);
            return match parse_obsidian_link(inner, embed) {
                Some(link) => Some((link, i + 2)),
                None => None,
            };
        }
        if c == '[' && d == '[' {
            assert(first_close(text@, i as int) is None);
            return None;
        }
        i += 1;
    }
    assert(first_close(text@, i as int) is None);
    None
}

} // verus!
