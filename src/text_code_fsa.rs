use rustc_lexer::{LiteralKind, TokenKind};
use vstd::prelude::*;

verus! {

/// What the end-marker decision needs to know of one lexical token of embedded code.
#[derive(Clone, Copy, Debug, PartialEq, Eq, Structural)]
pub enum TokenClass {
    LineComment,
    BlockComment { terminated: bool },
    Str { terminated: bool },
    Other,
}

/// The classes of the tokens that rustc's lexer cuts `s` into, in order.
pub uninterp spec fn lexed_classes(s: Seq<char>) -> Seq<TokenClass>;

/// Relies on `rustc_lexer::tokenize`: the token stream of `s`, a function of the text
/// alone, each token reduced to its class; the empty text has no tokens.
#[verifier::external_body]
fn token_classes(s: &str) -> (r: Vec<TokenClass>)
    ensures
        r@ == lexed_classes(s@),
        s@.len() == 0 ==> r@.len() == 0,
{
    rustc_lexer::tokenize(s).map(|t| match t.kind {
        TokenKind::LineComment => TokenClass::LineComment,
        TokenKind::BlockComment { terminated } => TokenClass::BlockComment { terminated },
        TokenKind::Literal { kind: LiteralKind::Str { terminated }, .. } => TokenClass::Str {
            terminated,
        },
        _ => TokenClass::Other,
    }).collect()
}

/// Whether an end marker that follows `code` is inert: the last token of `code` is a
/// line comment or a string literal that is still open. Block comments are not
/// consulted: a marker inside an open block comment ends the code region.
pub open spec fn end_marker_is_inert(code: Seq<char>) -> bool {
    let t = lexed_classes(code);
    t.len() > 0 && (t.last() == TokenClass::LineComment || t.last() == (TokenClass::Str {
        terminated: false,
    }))
}

/// The automaton's mode: copying literal text, or collecting embedded code.
#[derive(Clone, Copy, Debug, PartialEq, Eq, Structural)]
pub enum TextCodeFSAState {
    ParsingText,
    ParsingCode,
}

/// One classified span of a template.
#[derive(Debug, PartialEq, Clone)]
pub enum Part {
    Text(String),
    Code(String),
    EchoCode(String),
}

/// The mathematical value of a `Part`: its variant and its characters.
pub enum Fragment {
    Text(Seq<char>),
    Code(Seq<char>),
    EchoCode(Seq<char>),
}

impl View for Part {
    type V = Fragment;

    open spec fn view(&self) -> Fragment {
        match self {
            Part::Text(s) => Fragment::Text(s@),
            Part::Code(s) => Fragment::Code(s@),
            Part::EchoCode(s) => Fragment::EchoCode(s@),
        }
    }
}

pub open spec fn content_of(f: Fragment) -> Seq<char> {
    match f {
        Fragment::Text(s) => s,
        Fragment::Code(s) => s,
        Fragment::EchoCode(s) => s,
    }
}

pub open spec fn fragments(parts: Seq<Part>) -> Seq<Fragment> {
    parts.map_values(|p: Part| p@)
}

/// Whether a fragment is of the variant that `mode` fills.
pub open spec fn fills(mode: TextCodeFSAState, f: Fragment) -> bool {
    match mode {
        TextCodeFSAState::ParsingText => f is Text,
        TextCodeFSAState::ParsingCode => f is Code,
    }
}

pub open spec fn same_variant(a: Fragment, b: Fragment) -> bool {
    (a is Text && b is Text) || (a is Code && b is Code) || (a is EchoCode && b is EchoCode)
}

/// No two neighbouring fragments share a variant.
pub open spec fn merged(fs: Seq<Fragment>) -> bool {
    forall|i: int| 0 <= i < fs.len() - 1 ==> !same_variant(#[trigger] fs[i], fs[i + 1])
}

/// A fragment sequence that the automaton can hold: only text and code, merged.
pub open spec fn split_shape(fs: Seq<Fragment>) -> bool {
    &&& forall|i: int| 0 <= i < fs.len() ==> !(#[trigger] fs[i] is EchoCode)
    &&& merged(fs)
}

/// Appending one character in `mode`: it joins the last fragment when that one is of
/// the mode's variant, and starts a new fragment otherwise.
pub open spec fn append_char(mode: TextCodeFSAState, fs: Seq<Fragment>, c: char) -> Seq<
    Fragment,
> {
    if fs.len() > 0 && fills(mode, fs.last()) {
        let grown = content_of(fs.last()).push(c);
        fs.update(
            fs.len() - 1,
            match mode {
                TextCodeFSAState::ParsingText => Fragment::Text(grown),
                TextCodeFSAState::ParsingCode => Fragment::Code(grown),
            },
        )
    } else {
        fs.push(
            match mode {
                TextCodeFSAState::ParsingText => Fragment::Text(seq![c]),
                TextCodeFSAState::ParsingCode => Fragment::Code(seq![c]),
            },
        )
    }
}

/// The code collected so far in the current code region.
pub open spec fn code_so_far(fs: Seq<Fragment>) -> Seq<char> {
    if fs.len() > 0 && fs.last() is Code {
        content_of(fs.last())
    } else {
        Seq::empty()
    }
}

pub open spec fn open_marker() -> Seq<char> {
    seq!['<', '?', 'r', 's']
}

pub open spec fn close_marker() -> Seq<char> {
    seq!['?', '>']
}

pub open spec fn marker_at(doc: Seq<char>, i: int, m: Seq<char>) -> bool {
    0 <= i && i + m.len() <= doc.len() && doc.subrange(i, i + m.len()) == m
}

/// The automaton run over `doc` from position `i`, in `mode`, holding `fs`: the mode and
/// the fragments when the document is used up.
pub open spec fn scan(doc: Seq<char>, i: int, mode: TextCodeFSAState, fs: Seq<Fragment>) -> (
    TextCodeFSAState,
    Seq<Fragment>,
)
    decreases doc.len() - i,
{
    if i < 0 || i >= doc.len() {
        (mode, fs)
    } else {
        match mode {
            TextCodeFSAState::ParsingCode => {
                if marker_at(doc, i, close_marker()) && !end_marker_is_inert(code_so_far(fs)) {
                    scan(doc, i + 2, TextCodeFSAState::ParsingText, fs)
                } else {
                    scan(doc, i + 1, mode, append_char(mode, fs, doc[i]))
                }
            },
            TextCodeFSAState::ParsingText => {
                if marker_at(doc, i, open_marker()) {
                    scan(doc, i + 4, TextCodeFSAState::ParsingCode, fs)
                } else {
                    scan(doc, i + 1, mode, append_char(mode, fs, doc[i]))
                }
            },
        }
    }
}

/// The fragments that a fresh automaton makes of `doc`.
pub open spec fn split(doc: Seq<char>) -> Seq<Fragment> {
    scan(doc, 0, TextCodeFSAState::ParsingText, Seq::empty()).1
}

proof fn lemma_append_char_keeps_shape(mode: TextCodeFSAState, fs: Seq<Fragment>, c: char)
    requires
        split_shape(fs),
    ensures
        split_shape(append_char(mode, fs, c)),
{
    let r = append_char(mode, fs, c);
    assert forall|i: int| 0 <= i < r.len() - 1 implies !same_variant(#[trigger] r[i], r[i + 1]) by {
        assert(r[i] == fs[i]);
    }
}

/// Text/code automaton: splits a template into literal text and embedded code.
#[derive(Debug)]
pub struct TextCodeFSA {
    state: TextCodeFSAState,
    data: Vec<Part>,
}

/// Relies on `String::push`: the character is added at the end.
#[verifier::external_body]
fn push_char(s: &mut String, c: char)
    ensures
        final(s)@ == old(s)@.push(c),
{
    s.push(c)
}

/// Relies on `str::chars` collected into a `Vec`: the characters of `s`, in order.
#[verifier::external_body]
fn chars_of(s: &str) -> (r: Vec<char>)
    ensures
        r@ == s@,
{
    s.chars().collect()
}

fn open_marker_at(chars: &Vec<char>, i: usize) -> (r: bool)
    requires
        i < chars@.len(),
    ensures
        r == marker_at(chars@, i as int, open_marker()),
{
    if chars.len() - i >= 4 && chars[i] == '<' && chars[i + 1] == '?' && chars[i + 2] == 'r'
        && chars[i + 3] == 's' {
        assert(chars@.subrange(i as int, i + 4) =~= open_marker());
        true
    } else {
        if chars.len() - i >= 4 {
            let ghost sub = chars@.subrange(i as int, i + 4);
            assert(sub[0] == chars@[i as int] && sub[1] == chars@[i + 1] && sub[2] == chars@[i
                + 2] && sub[3] == chars@[i + 3]);
        }
        false
    }
}

fn close_marker_at(chars: &Vec<char>, i: usize) -> (r: bool)
    requires
        i < chars@.len(),
    ensures
        r == marker_at(chars@, i as int, close_marker()),
{
    if chars.len() - i >= 2 && chars[i] == '?' && chars[i + 1] == '>' {
        assert(chars@.subrange(i as int, i + 2) =~= close_marker());
        true
    } else {
        if chars.len() - i >= 2 {
            let ghost sub = chars@.subrange(i as int, i + 2);
            assert(sub[0] == chars@[i as int] && sub[1] == chars@[i + 1]);
        }
        false
    }
}

impl Part {
    pub fn is_text(&self) -> (r: bool)
        ensures
            r == (self@ is Text),
    {
        match self {
            Part::Text(_) => true,
            _ => false,
        }
    }

    pub fn get_content(&self) -> (r: &String)
        ensures
            r@ == content_of(self@),
    {
        match self {
            Part::Text(content) => content,
            Part::Code(content) => content,
            Part::EchoCode(content) => content,
        }
    }
}

impl TextCodeFSA {
    pub closed spec fn mode(&self) -> TextCodeFSAState {
        self.state
    }

    /// The fragments collected so far.
    pub closed spec fn parts(&self) -> Seq<Fragment> {
        fragments(self.data@)
    }

    pub closed spec fn wf(&self) -> bool {
        split_shape(fragments(self.data@))
    }

    pub fn new() -> (r: TextCodeFSA)
        ensures
            r.wf(),
            r.mode() == TextCodeFSAState::ParsingText,
            r.parts() == Seq::<Fragment>::empty(),
    {
        let r = Self { state: TextCodeFSAState::ParsingText, data: Vec::new() };
        assert(fragments(r.data@) =~= Seq::<Fragment>::empty());
        r
    }

    /// The content of the current code fragment, if the last fragment is one.
    fn get_last_part_content(&self) -> (r: Option<&String>)
        ensures
            r is Some <==> (self.parts().len() > 0 && self.parts().last() is Code),
            r is Some ==> r->0@ == code_so_far(self.parts()),
    {
        let n = self.data.len();
        if n > 0 {
            match &self.data[n - 1] {
                Part::Code(content) => Some(content),
                _ => None,
            }
        } else {
            None
        }
    }

    fn is_inside_line_comment(tokens: &Vec<TokenClass>) -> (r: bool)
        ensures
            r == (tokens@.len() > 0 && tokens@.last() == TokenClass::LineComment),
    {
        tokens.len() > 0 && tokens[tokens.len() - 1] == TokenClass::LineComment
    }

    fn is_inside_str_literal(tokens: &Vec<TokenClass>) -> (r: bool)
        ensures
            r == (tokens@.len() > 0 && tokens@.last() == (TokenClass::Str { terminated: false })),
    {
        tokens.len() > 0 && tokens[tokens.len() - 1] == (TokenClass::Str { terminated: false })
    }

    /// Whether an end marker at this point is inert, going by the tokens of the code
    /// collected so far in the current region.
    fn end_marker_is_inert_here(&self) -> (r: bool)
        ensures
            r == end_marker_is_inert(code_so_far(self.parts())),
    {
        let tokens = match self.get_last_part_content() {
            Some(content) => token_classes(content.as_str()),
            None => {
                proof {
                    reveal_strlit("");
                }
                assert(""@ =~= Seq::<char>::empty());
                token_classes("")
            },
        };
        Self::is_inside_str_literal(&tokens) || Self::is_inside_line_comment(&tokens)
    }

    /// Splits `payload` into fragments, continuing from the automaton's current mode and
    /// fragments (a fresh automaton gives `split(payload@)`).
    pub fn run(&mut self, payload: String) -> (r: &Vec<Part>)
        requires
            old(self).wf(),
        ensures
            final(self).wf(),
            (final(self).mode(), final(self).parts()) == scan(
                payload@,
                0,
                old(self).mode(),
                old(self).parts(),
            ),
            fragments(r@) == final(self).parts(),
    {
        let payload_chars = chars_of(payload.as_str());
        let ghost doc = payload@;
        let ghost start = (self.state, fragments(self.data@));
        let mut payload_char_index: usize = 0;
        while payload_char_index < payload_chars.len()
            invariant
                self.wf(),
                payload_chars@ == doc,
                payload_char_index <= doc.len(),
                scan(doc, payload_char_index as int, self.state, fragments(self.data@)) == scan(
                    doc,
                    0,
                    start.0,
                    start.1,
                ),
            decreases doc.len() - payload_char_index,
        {
            let c = payload_chars[payload_char_index];
            match self.state {
                TextCodeFSAState::ParsingCode => {
                    if close_marker_at(&payload_chars, payload_char_index)
                        && !self.end_marker_is_inert_here() {
                        payload_char_index += 2;
                        self.state = TextCodeFSAState::ParsingText;
                    } else {
                        self.push_char_to_latest_entry(c);
                        payload_char_index += 1;
                    }
                },
                TextCodeFSAState::ParsingText => {
                    if open_marker_at(&payload_chars, payload_char_index) {
                        payload_char_index += 4;
                        self.state = TextCodeFSAState::ParsingCode;
                    } else {
                        self.push_char_to_latest_entry(c);
                        payload_char_index += 1;
                    }
                },
            }
        }
        &self.data
    }

    fn push_char_to_latest_entry(&mut self, c: char)
        requires
            old(self).wf(),
        ensures
            final(self).wf(),
            final(self).mode() == old(self).mode(),
            final(self).parts() == append_char(old(self).mode(), old(self).parts(), c),
    {
        proof {
            lemma_append_char_keeps_shape(self.state, fragments(self.data@), c);
        }
        let ghost before = self.data@;
        let n = self.data.len();
        let is_correct_type = n > 0 && match (self.state, &self.data[n - 1]) {
            (TextCodeFSAState::ParsingCode, Part::Code(_)) => true,
            (TextCodeFSAState::ParsingText, Part::Text(_)) => true,
            _ => false,
        };
        if is_correct_type {
            let last = self.data.pop().unwrap();
            assert(before =~= self.data@.push(last));
            let grown = match last {
                Part::Text(mut text) => {
                    push_char(&mut text, c);
                    Part::Text(text)
                },
                Part::Code(mut code) => {
                    push_char(&mut code, c);
                    Part::Code(code)
                },
                Part::EchoCode(mut code) => {
                    push_char(&mut code, c);
                    Part::EchoCode(code)
                },
            };
            self.data.push(grown);
            assert(fragments(self.data@) =~= append_char(self.state, fragments(before), c));
        } else {
            let mut fresh = String::new();
            push_char(&mut fresh, c);
            match self.state {
                TextCodeFSAState::ParsingText => self.data.push(Part::Text(fresh)),
                TextCodeFSAState::ParsingCode => self.data.push(Part::Code(fresh)),
            }
            assert(fragments(self.data@) =~= append_char(self.state, fragments(before), c));
        }
    }
}


proof fn lemma_scan_keeps_shape(doc: Seq<char>, i: int, mode: TextCodeFSAState, fs: Seq<Fragment>)
    requires
        split_shape(fs),
    ensures
        split_shape(scan(doc, i, mode, fs).1),
    decreases doc.len() - i,
{
    if i < 0 || i >= doc.len() {
    } else {
        lemma_append_char_keeps_shape(mode, fs, doc[i]);
        match mode {
            TextCodeFSAState::ParsingCode => {
                if marker_at(doc, i, close_marker()) && !end_marker_is_inert(code_so_far(fs)) {
                    lemma_scan_keeps_shape(doc, i + 2, TextCodeFSAState::ParsingText, fs);
                } else {
                    lemma_scan_keeps_shape(doc, i + 1, mode, append_char(mode, fs, doc[i]));
                }
            },
            TextCodeFSAState::ParsingText => {
                if marker_at(doc, i, open_marker()) {
                    lemma_scan_keeps_shape(doc, i + 4, TextCodeFSAState::ParsingCode, fs);
                } else {
                    lemma_scan_keeps_shape(doc, i + 1, mode, append_char(mode, fs, doc[i]));
                }
            },
        }
    }
}

/// For every document, no two neighbouring fragments of its split share a variant, and
/// the split holds text and code fragments only.
pub proof fn lemma_split_is_merged(doc: Seq<char>)
    ensures
        merged(split(doc)),
        split_shape(split(doc)),
{
    lemma_scan_keeps_shape(doc, 0, TextCodeFSAState::ParsingText, Seq::empty());
}

/// A fragment as it stood in the document: text as it is, code between its markers.
pub open spec fn render(f: Fragment) -> Seq<char> {
    match f {
        Fragment::Text(t) => t,
        Fragment::Code(c) => open_marker() + c + close_marker(),
        Fragment::EchoCode(c) => open_marker() + c + close_marker(),
    }
}

/// The document that a fragment sequence stands for: each fragment rendered, in order.
pub open spec fn rebuild(fs: Seq<Fragment>) -> Seq<char>
    decreases fs.len(),
{
    if fs.len() == 0 {
        Seq::empty()
    } else {
        rebuild(fs.drop_last()) + render(fs.last())
    }
}

/// Whether the scan of `doc` from `i` on ends outside a code region, finds every code
/// region that it closes non-empty, and finds text between any two code regions.
pub open spec fn delimited_cleanly(
    doc: Seq<char>,
    i: int,
    mode: TextCodeFSAState,
    fs: Seq<Fragment>,
) -> bool
    decreases doc.len() - i,
{
    if i < 0 || i >= doc.len() {
        mode == TextCodeFSAState::ParsingText
    } else {
        match mode {
            TextCodeFSAState::ParsingCode => {
                if marker_at(doc, i, close_marker()) && !end_marker_is_inert(code_so_far(fs)) {
                    fs.len() > 0 && fs.last() is Code && delimited_cleanly(
                        doc,
                        i + 2,
                        TextCodeFSAState::ParsingText,
                        fs,
                    )
                } else {
                    delimited_cleanly(doc, i + 1, mode, append_char(mode, fs, doc[i]))
                }
            },
            TextCodeFSAState::ParsingText => {
                if marker_at(doc, i, open_marker()) {
                    !(fs.len() > 0 && fs.last() is Code) && delimited_cleanly(
                        doc,
                        i + 4,
                        TextCodeFSAState::ParsingCode,
                        fs,
                    )
                } else {
                    delimited_cleanly(doc, i + 1, mode, append_char(mode, fs, doc[i]))
                }
            },
        }
    }
}

proof fn lemma_rebuild_push(fs: Seq<Fragment>, f: Fragment)
    ensures
        rebuild(fs.push(f)) == rebuild(fs) + render(f),
{
    assert(fs.push(f).drop_last() =~= fs);
}

/// How the document read so far relates to the fragments held at position `i`.
spec fn rebuilt_prefix(doc: Seq<char>, i: int, mode: TextCodeFSAState, fs: Seq<Fragment>) -> bool {
    &&& 0 <= i <= doc.len()
    &&& match mode {
        TextCodeFSAState::ParsingText => rebuild(fs) == doc.subrange(0, i),
        TextCodeFSAState::ParsingCode => if fs.len() > 0 && fs.last() is Code {
            rebuild(fs) == doc.subrange(0, i) + close_marker()
        } else {
            rebuild(fs) + open_marker() == doc.subrange(0, i)
        },
    }
}

proof fn lemma_append_char_rebuilds(
    doc: Seq<char>,
    i: int,
    mode: TextCodeFSAState,
    fs: Seq<Fragment>,
)
    requires
        rebuilt_prefix(doc, i, mode, fs),
        i < doc.len(),
    ensures
        rebuilt_prefix(doc, i + 1, mode, append_char(mode, fs, doc[i])),
{
    let c = doc[i];
    let r = append_char(mode, fs, c);
    assert(doc.subrange(0, i + 1) =~= doc.subrange(0, i).push(c));
    if fs.len() > 0 && fills(mode, fs.last()) {
        let init = fs.drop_last();
        let k = content_of(fs.last());
        assert(r.drop_last() =~= init);
        assert(fs.drop_last() =~= init);
        match mode {
            TextCodeFSAState::ParsingText => {
                assert(rebuild(r) =~= rebuild(init) + k.push(c));
                assert(rebuild(fs) =~= rebuild(init) + k);
                assert(rebuild(r) =~= rebuild(fs).push(c));
            },
            TextCodeFSAState::ParsingCode => {
                let head = rebuild(init) + open_marker() + k;
                assert(rebuild(fs) =~= head + close_marker());
                assert(rebuild(r) =~= head.push(c) + close_marker());
                assert(head =~= doc.subrange(0, i)) by {
                    assert(head + close_marker() =~= doc.subrange(0, i) + close_marker());
                    assert forall|j: int| 0 <= j < head.len() implies head[j] == doc.subrange(
                        0,
                        i,
                    )[j] by {
                        assert((head + close_marker())[j] == head[j]);
                        assert((doc.subrange(0, i) + close_marker())[j] == doc.subrange(0, i)[j]);
                    }
                }
            },
        }
    } else {
        lemma_rebuild_push(fs, r.last());
        assert(r =~= fs.push(r.last()));
        match mode {
            TextCodeFSAState::ParsingText => {
                assert(rebuild(r) =~= rebuild(fs).push(c));
            },
            TextCodeFSAState::ParsingCode => {
                assert(rebuild(r) =~= rebuild(fs) + open_marker() + seq![c] + close_marker());
                assert(rebuild(r) =~= doc.subrange(0, i + 1) + close_marker());
            },
        }
    }
}

proof fn lemma_scan_rebuilds(doc: Seq<char>, i: int, mode: TextCodeFSAState, fs: Seq<Fragment>)
    requires
        rebuilt_prefix(doc, i, mode, fs),
        delimited_cleanly(doc, i, mode, fs),
    ensures
        rebuild(scan(doc, i, mode, fs).1) == doc,
    decreases doc.len() - i,
{
    if i >= doc.len() {
        assert(doc.subrange(0, i) =~= doc);
    } else {
        match mode {
            TextCodeFSAState::ParsingCode => {
                if marker_at(doc, i, close_marker()) && !end_marker_is_inert(code_so_far(fs)) {
                    assert(doc.subrange(0, i + 2) =~= doc.subrange(0, i) + doc.subrange(i, i + 2));
                    lemma_scan_rebuilds(doc, i + 2, TextCodeFSAState::ParsingText, fs);
                } else {
                    lemma_append_char_rebuilds(doc, i, mode, fs);
                    lemma_scan_rebuilds(doc, i + 1, mode, append_char(mode, fs, doc[i]));
                }
            },
            TextCodeFSAState::ParsingText => {
                if marker_at(doc, i, open_marker()) {
                    assert(doc.subrange(0, i + 4) =~= doc.subrange(0, i) + doc.subrange(i, i + 4));
                    lemma_scan_rebuilds(doc, i + 4, TextCodeFSAState::ParsingCode, fs);
                } else {
                    lemma_append_char_rebuilds(doc, i, mode, fs);
                    lemma_scan_rebuilds(doc, i + 1, mode, append_char(mode, fs, doc[i]));
                }
            },
        }
    }
}

/// Round trip: where the document ends outside a code region, and every code region is
/// non-empty and separated from the next by text, writing each text fragment as it is
/// and each code fragment between its markers gives the document back exactly.
pub proof fn lemma_split_round_trip(doc: Seq<char>)
    requires
        delimited_cleanly(doc, 0, TextCodeFSAState::ParsingText, Seq::empty()),
    ensures
        rebuild(split(doc)) == doc,
{
    assert(rebuild(Seq::<Fragment>::empty()) =~= doc.subrange(0, 0));
    lemma_scan_rebuilds(doc, 0, TextCodeFSAState::ParsingText, Seq::empty());
}

/// An end marker met in code whose last token is a string literal still open is inert:
/// its `?` joins the code and the scan stays in the code region.
pub proof fn lemma_marker_inert_in_open_string(doc: Seq<char>, i: int, fs: Seq<Fragment>)
    requires
        marker_at(doc, i, close_marker()),
        lexed_classes(code_so_far(fs)).len() > 0,
        lexed_classes(code_so_far(fs)).last() == (TokenClass::Str { terminated: false }),
    ensures
        scan(doc, i, TextCodeFSAState::ParsingCode, fs) == scan(
            doc,
            i + 1,
            TextCodeFSAState::ParsingCode,
            append_char(TextCodeFSAState::ParsingCode, fs, '?'),
        ),
{
    assert(doc[i] == doc.subrange(i, i + 2)[0]);
}

/// An end marker met in code whose last token is a line comment is inert: its `?` joins
/// the code and the scan stays in the code region.
pub proof fn lemma_marker_inert_in_line_comment(doc: Seq<char>, i: int, fs: Seq<Fragment>)
    requires
        marker_at(doc, i, close_marker()),
        lexed_classes(code_so_far(fs)).len() > 0,
        lexed_classes(code_so_far(fs)).last() == TokenClass::LineComment,
    ensures
        scan(doc, i, TextCodeFSAState::ParsingCode, fs) == scan(
            doc,
            i + 1,
            TextCodeFSAState::ParsingCode,
            append_char(TextCodeFSAState::ParsingCode, fs, '?'),
        ),
{
    assert(doc[i] == doc.subrange(i, i + 2)[0]);
}

/// The lexer's verdict on the last token alone decides: an end marker met in code ends
/// the region whenever that token is neither a line comment nor an open string literal,
/// whatever text precedes it (a `//` inside some other construct included).
pub proof fn lemma_marker_live_unless_lexer_says_inert(doc: Seq<char>, i: int, fs: Seq<Fragment>)
    requires
        marker_at(doc, i, close_marker()),
        lexed_classes(code_so_far(fs)).len() == 0 || (lexed_classes(code_so_far(fs)).last()
            != TokenClass::LineComment && lexed_classes(code_so_far(fs)).last() != (TokenClass::Str {
            terminated: false,
        })),
    ensures
        scan(doc, i, TextCodeFSAState::ParsingCode, fs) == scan(
            doc,
            i + 2,
            TextCodeFSAState::ParsingText,
            fs,
        ),
{
}

} // verus!
