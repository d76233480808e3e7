//! The tokenizer: from a byte string to events, one at a time.

use vstd::prelude::*;
use crate::errors::{Error, ErrorSpec, SyntaxKind};
use crate::events::{
    BytesCData, BytesDecl, BytesEnd, BytesStart, BytesText, Event, EventSpec, TagSpec,
};
use crate::syntax::{
    doctype_end, find_byte, find_pattern, find_space, has_at, matches_at, scan_byte,
    scan_doctype_end, scan_pattern, scan_spaces, scan_tag_end, scan_to_space, skip_spaces, tag_end,
    trim_end, trimmed_len,
};
use crate::utils::{
    BANG, DASH, GT, is_space, is_space_spec, LBRACKET, LT, QUESTION, RBRACKET, SLASH, slice_eq,
    subslice, to_vec,
};
use crate::writer::{cdata_close, cdata_open, comment_close, comment_open, doctype_open, pi_close};

verus! {

/// The policies of a reader.
#[derive(Debug, Clone, Copy, PartialEq, Eq, Structural)]
pub struct Config {
    /// Report a self-closing tag as an opening tag followed by a closing
    /// tag.
    pub expand_empty_elements: bool,
    /// Strip the whitespace at the start of text.
    pub trim_text_start: bool,
    /// Strip the whitespace at the end of text.
    pub trim_text_end: bool,
    /// Refuse a closing tag whose name differs from that of the element
    /// that is open.
    pub check_end_names: bool,
    /// Refuse `--` inside a comment.
    pub check_comments: bool,
}

/// The default policies: closing tags are checked, everything else is off.
pub open spec fn default_config() -> Config {
    Config {
        expand_empty_elements: false,
        trim_text_start: false,
        trim_text_end: false,
        check_end_names: true,
        check_comments: false,
    }
}

impl Default for Config {
    /// Closing tags are checked; everything else is off.
    fn default() -> (r: Config)
        ensures
            r == default_config(),
    {
        Config {
            expand_empty_elements: false,
            trim_text_start: false,
            trim_text_end: false,
            check_end_names: true,
            check_comments: false,
        }
    }
}

/// Where the reader stands between two events.
#[derive(Debug, Clone, Copy, PartialEq, Eq, Structural)]
pub enum Phase {
    /// Before text or markup.
    AtText,
    /// After the opening tag that a self-closing tag was expanded to; the
    /// closing tag is due.
    AtEmptyEnd,
    /// After the end of the document.
    Done,
}

/// What the byte after `<` says of the markup that follows.
#[derive(Debug, Clone, Copy, PartialEq, Eq, Structural)]
pub enum Opening {
    /// An opening or self-closing tag.
    AtStart,
    /// `</`: a closing tag.
    AtEnd,
    /// `<!`: a comment, a CDATA section or a document type.
    AtBang,
    /// `<?`: a processing instruction or the XML declaration.
    AtQuery,
}

/// The state of a reader, as a mathematical value.
pub struct ReaderState {
    /// The position in the input of the next byte to read.
    pub pos: int,
    /// The names of the elements that are open, the innermost last.
    pub opened: Seq<Seq<u8>>,
    /// Where the reader stands.
    pub phase: Phase,
    /// Whether an XML declaration may still come: nothing but comments,
    /// processing instructions and document types came so far.
    pub prolog: bool,
}

/// One advance of the reader: what it reports and the state it is in
/// afterwards.
pub struct Step {
    pub result: Result<EventSpec, ErrorSpec>,
    pub next: ReaderState,
}

/// The state in which a reader starts.
pub open spec fn initial_state() -> ReaderState {
    ReaderState { pos: 0, opened: Seq::empty(), phase: Phase::AtText, prolog: true }
}

/// A state is sound for an input when its position lies within the input
/// and a closing tag is due only for an element that is open.
pub open spec fn state_ok(input: Seq<u8>, st: ReaderState) -> bool {
    &&& 0 <= st.pos <= input.len()
    &&& st.phase == Phase::AtEmptyEnd ==> st.opened.len() > 0
    &&& st.phase == Phase::Done ==> st.pos == input.len()
}

/// A malformed token: the error is reported and the state stays as it was.
pub open spec fn failed(st: ReaderState, kind: SyntaxKind, offset: int) -> Step {
    Step { result: Err(ErrorSpec::Syntax { kind, offset }), next: st }
}

/// The content of a tag split into its name, which ends at the first
/// whitespace, and the rest.
pub open spec fn tag_spec(content: Seq<u8>) -> TagSpec {
    let k = find_space(content, 0);
    TagSpec { name: content.take(k), attrs: content.skip(k) }
}

/// The markup that a byte after `<` announces.
pub open spec fn opening(b: u8) -> Opening {
    if b == SLASH {
        Opening::AtEnd
    } else if b == BANG {
        Opening::AtBang
    } else if b == QUESTION {
        Opening::AtQuery
    } else {
        Opening::AtStart
    }
}

/// Whether the body of `<?...?>` is that of an XML declaration: `xml` and
/// whitespace, then anything.
pub open spec fn is_decl(body: Seq<u8>) -> bool {
    body.len() >= 4 && body[0] == 'x' as u8 && body[1] == 'm' as u8 && body[2] == 'l' as u8
        && is_space_spec(body[3])
}

/// Where the next token starts: after the whitespace at `pos` where text
/// is trimmed at its start, or at its end and that whitespace is all the
/// text there is; at `pos` otherwise.
pub open spec fn text_start(input: Seq<u8>, cfg: Config, pos: int) -> int {
    let q = skip_spaces(input, pos);
    if cfg.trim_text_start || (cfg.trim_text_end && (q >= input.len() || input[q] == LT)) {
        q
    } else {
        pos
    }
}

/// Text from `p` up to the next `<` or the end of the input.
pub open spec fn text_step(input: Seq<u8>, cfg: Config, st: ReaderState, p: int) -> Step {
    let end = find_byte(input, p, LT);
    let raw = input.subrange(p, end);
    let data = if cfg.trim_text_end {
        raw.take(trimmed_len(raw))
    } else {
        raw
    };
    Step {
        result: Ok(EventSpec::Text(data)),
        next: ReaderState { pos: end, prolog: false, ..st },
    }
}

/// The name in a closing tag: its content without the whitespace at the
/// end.
pub open spec fn end_name(raw: Seq<u8>) -> Seq<u8> {
    raw.take(trimmed_len(raw))
}

/// A closing tag at `p`.
///
/// Where names are checked, the name must be that of the innermost open
/// element; otherwise the error names both and the state stays. The
/// innermost open element, if there is one, is closed.
pub open spec fn end_step(input: Seq<u8>, cfg: Config, st: ReaderState, p: int) -> Step {
    let gt = find_byte(input, p + 2, GT);
    if gt >= input.len() {
        failed(st, SyntaxKind::UnclosedTag, p)
    } else {
        let raw = input.subrange(p + 2, gt);
        let expected = if st.opened.len() > 0 {
            st.opened.last()
        } else {
            Seq::<u8>::empty()
        };
        if cfg.check_end_names && (st.opened.len() == 0 || expected != end_name(raw)) {
            Step {
                result: Err(ErrorSpec::EndEventMismatch { expected, found: end_name(raw) }),
                next: st,
            }
        } else {
            Step {
                result: Ok(EventSpec::End(raw)),
                next: ReaderState {
                    pos: gt + 1,
                    opened: if st.opened.len() > 0 {
                        st.opened.drop_last()
                    } else {
                        st.opened
                    },
                    prolog: false,
                    ..st
                },
            }
        }
    }
}

/// `--`
pub open spec fn double_dash() -> Seq<u8> {
    seq![DASH, DASH]
}

/// A comment at `p`: up to the first `-->`.
pub open spec fn comment_step(input: Seq<u8>, cfg: Config, st: ReaderState, p: int) -> Step {
    let k = find_pattern(input, p + 4, comment_close());
    if k >= input.len() {
        failed(st, SyntaxKind::UnclosedComment, p)
    } else {
        let body = input.subrange(p + 4, k);
        let dashes = find_pattern(body, 0, double_dash());
        if cfg.check_comments && dashes < body.len() {
            failed(st, SyntaxKind::DoubleDashInComment, p + 4 + dashes)
        } else {
            Step { result: Ok(EventSpec::Comment(body)), next: ReaderState { pos: k + 3, ..st } }
        }
    }
}

/// A CDATA section at `p`: up to the first `]]>`.
pub open spec fn cdata_step(input: Seq<u8>, st: ReaderState, p: int) -> Step {
    let k = find_pattern(input, p + 9, cdata_close());
    if k >= input.len() {
        failed(st, SyntaxKind::UnclosedCData, p)
    } else {
        Step {
            result: Ok(EventSpec::CData(input.subrange(p + 9, k))),
            next: ReaderState { pos: k + 3, prolog: false, ..st },
        }
    }
}

/// A document type at `p`: up to the first `>` outside every `[...]`.
pub open spec fn doctype_step(input: Seq<u8>, st: ReaderState, p: int) -> Step {
    let k = doctype_end(input, p + 10, 0);
    if k >= input.len() {
        failed(st, SyntaxKind::UnclosedDocType, p)
    } else {
        Step {
            result: Ok(EventSpec::DocType(input.subrange(p + 10, k))),
            next: ReaderState { pos: k + 1, ..st },
        }
    }
}

/// Markup that starts with `<!` at `p`.
pub open spec fn bang_step(input: Seq<u8>, cfg: Config, st: ReaderState, p: int) -> Step {
    if matches_at(input, p, comment_open()) {
        comment_step(input, cfg, st, p)
    } else if matches_at(input, p, cdata_open()) {
        cdata_step(input, st, p)
    } else if matches_at(input, p, doctype_open()) {
        doctype_step(input, st, p)
    } else {
        failed(st, SyntaxKind::InvalidBang, p)
    }
}

/// Markup that starts with `<?` at `p`: up to the first `?>`. It is the
/// XML declaration where one may still come and the body is that of one,
/// and a processing instruction otherwise.
pub open spec fn question_step(input: Seq<u8>, st: ReaderState, p: int) -> Step {
    let k = find_pattern(input, p + 2, pi_close());
    if k >= input.len() {
        failed(st, SyntaxKind::UnclosedPI, p)
    } else {
        let body = input.subrange(p + 2, k);
        if st.prolog && is_decl(body) {
            Step {
                result: Ok(EventSpec::Decl(body)),
                next: ReaderState { pos: k + 2, prolog: false, ..st },
            }
        } else {
            Step { result: Ok(EventSpec::PI(body)), next: ReaderState { pos: k + 2, ..st } }
        }
    }
}

/// An opening or self-closing tag at `p`: up to the first `>` outside
/// quotes.
///
/// The tag is self-closing where the last byte before `>` that is no
/// whitespace is `/`; its content then ends before that `/`. An opening
/// tag opens an element. A self-closing tag that is to be expanded is
/// reported as an opening tag, and its closing tag is due next.
pub open spec fn start_step(input: Seq<u8>, cfg: Config, st: ReaderState, p: int) -> Step {
    let gt = tag_end(input, p + 1, None);
    if gt >= input.len() {
        failed(st, SyntaxKind::UnclosedTag, p)
    } else {
        let body = input.subrange(p + 1, gt);
        let t = trimmed_len(body);
        if t > 0 && body[t - 1] == SLASH {
            let tag = tag_spec(body.take(t - 1));
            if cfg.expand_empty_elements {
                Step {
                    result: Ok(EventSpec::Start(tag)),
                    next: ReaderState {
                        pos: gt + 1,
                        opened: st.opened.push(tag.name),
                        phase: Phase::AtEmptyEnd,
                        prolog: false,
                    },
                }
            } else {
                Step {
                    result: Ok(EventSpec::Empty(tag)),
                    next: ReaderState { pos: gt + 1, prolog: false, ..st },
                }
            }
        } else {
            let tag = tag_spec(body);
            Step {
                result: Ok(EventSpec::Start(tag)),
                next: ReaderState {
                    pos: gt + 1,
                    opened: st.opened.push(tag.name),
                    prolog: false,
                    ..st
                },
            }
        }
    }
}

/// Markup at `p`, where a `<` stands: the byte after it decides which.
pub open spec fn markup_step(input: Seq<u8>, cfg: Config, st: ReaderState, p: int) -> Step {
    if p + 1 >= input.len() {
        failed(st, SyntaxKind::UnclosedTag, p)
    } else {
        match opening(input[p + 1]) {
            Opening::AtEnd => end_step(input, cfg, st, p),
            Opening::AtBang => bang_step(input, cfg, st, p),
            Opening::AtQuery => question_step(input, st, p),
            Opening::AtStart => start_step(input, cfg, st, p),
        }
    }
}

/// One advance of a reader over `input` from state `st`.
///
/// After the end of the document the reader reports the end again. Where
/// a closing tag is due for an expanded self-closing tag, it is reported and
/// the element closed. Otherwise the next token is read: the end of the
/// document where the input is used up, markup where a `<` stands, and text
/// otherwise. An error leaves the state as it was.
pub open spec fn step(input: Seq<u8>, cfg: Config, st: ReaderState) -> Step {
    match st.phase {
        Phase::Done => Step { result: Ok(EventSpec::Eof), next: st },
        Phase::AtEmptyEnd => Step {
            result: Ok(EventSpec::End(st.opened.last())),
            next: ReaderState {
                opened: st.opened.drop_last(),
                phase: Phase::AtText,
                prolog: false,
                ..st
            },
        },
        Phase::AtText => {
            let p = text_start(input, cfg, st.pos);
            if p >= input.len() {
                Step {
                    result: Ok(EventSpec::Eof),
                    next: ReaderState { pos: input.len() as int, phase: Phase::Done, ..st },
                }
            } else if input[p] == LT {
                markup_step(input, cfg, st, p)
            } else {
                text_step(input, cfg, st, p)
            }
        },
    }
}

/// The names that a stack of borrowed names holds.
pub open spec fn names_view(names: Seq<&[u8]>) -> Seq<Seq<u8>> {
    Seq::new(names.len(), |i: int| names[i]@)
}

/// A reader of events from a byte string.
#[derive(Debug, Clone)]
pub struct Reader<'a> {
    input: &'a [u8],
    pos: usize,
    opened: Vec<&'a [u8]>,
    phase: Phase,
    prolog: bool,
    config: Config,
}

impl<'a> Reader<'a> {
    /// The reader is well formed: its position lies within the input, and a
    /// closing tag is due only for an element that is open.
    pub closed spec fn wf(&self) -> bool {
        &&& self.pos <= self.input@.len()
        &&& self.phase == Phase::AtEmptyEnd ==> self.opened@.len() > 0
        &&& self.phase == Phase::Done ==> self.pos == self.input@.len()
    }

    /// The input that the reader reads.
    pub closed spec fn input(&self) -> Seq<u8> {
        self.input@
    }

    /// The policies of the reader.
    pub closed spec fn config(&self) -> Config {
        self.config
    }

    /// The state of the reader.
    pub closed spec fn state(&self) -> ReaderState {
        ReaderState {
            pos: self.pos as int,
            opened: names_view(self.opened@),
            phase: self.phase,
            prolog: self.prolog,
        }
    }

    /// A reader at the start of `input`, with the default policies.
    pub fn from_bytes(input: &'a [u8]) -> (r: Reader<'a>)
        ensures
            r.input() == input@,
            r.config() == default_config(),
            r.state() == initial_state(),
            r.wf(),
    {
        Reader::with_config(input, Config::default())
    }

    /// A reader at the start of `input`, with the given policies.
    pub fn with_config(input: &'a [u8], config: Config) -> (r: Reader<'a>)
        ensures
            r.input() == input@,
            r.config() == config,
            r.state() == initial_state(),
            r.wf(),
    {
        let r = Reader {
            input,
            pos: 0,
            opened: Vec::new(),
            phase: Phase::AtText,
            prolog: true,
            config,
        };
        assert(names_view(r.opened@) =~= Seq::<Seq<u8>>::empty());
        r
    }

    /// The state of a well-formed reader is sound for its input.
    pub proof fn lemma_wf_state_ok(&self)
        requires
            self.wf(),
        ensures
            state_ok(self.input(), self.state()),
    {
    }

    /// The policies of the reader.
    pub fn get_config(&self) -> (r: Config)
        ensures
            r == self.config(),
    {
        self.config
    }

    /// Changes the policies; the state stays.
    pub fn set_config(&mut self, config: Config)
        requires
            old(self).wf(),
        ensures
            final(self).wf(),
            final(self).config() == config,
            final(self).input() == old(self).input(),
            final(self).state() == old(self).state(),
    {
        self.config = config;
    }

    /// The position in the input of the next byte to read.
    pub fn buffer_position(&self) -> (r: usize)
        ensures
            r == self.state().pos,
    {
        self.pos
    }

    /// The number of elements that are open.
    pub fn depth(&self) -> (r: usize)
        ensures
            r == self.state().opened.len(),
    {
        self.opened.len()
    }

    /// Whether the end of the document was reported.
    pub fn is_done(&self) -> (r: bool)
        ensures
            r == (self.state().phase == Phase::Done),
    {
        self.phase == Phase::Done
    }

    fn fail(&self, kind: SyntaxKind, offset: usize) -> (r: Result<Event<'a>, Error>)
        ensures
            r is Err,
            r->Err_0@ == (ErrorSpec::Syntax { kind, offset: offset as int }),
    {
        Err(Error::Syntax { kind, offset })
    }

    fn push_name(&mut self, name: &'a [u8])
        requires
            old(self).wf(),
        ensures
            final(self).wf(),
            final(self).input() == old(self).input(),
            final(self).config() == old(self).config(),
            final(self).state() == (ReaderState {
                opened: old(self).state().opened.push(name@),
                ..old(self).state()
            }),
    {
        self.opened.push(name);
        assert(names_view(self.opened@) =~= names_view(old(self).opened@).push(name@));
    }

    fn pop_name(&mut self)
        requires
            old(self).wf(),
        ensures
            final(self).wf(),
            final(self).input() == old(self).input(),
            final(self).config() == old(self).config(),
            final(self).state() == (ReaderState {
                opened: if old(self).state().opened.len() > 0 {
                    old(self).state().opened.drop_last()
                } else {
                    old(self).state().opened
                },
                phase: if old(self).state().phase == Phase::AtEmptyEnd {
                    Phase::AtText
                } else {
                    old(self).state().phase
                },
                ..old(self).state()
            }),
    {
        if self.phase == Phase::AtEmptyEnd {
            self.phase = Phase::AtText;
        }
        if self.opened.len() > 0 {
            self.opened.pop();
            assert(names_view(self.opened@) =~= names_view(old(self).opened@).drop_last());
        }
    }

    fn make_tag(content: &'a [u8]) -> (r: BytesStart<'a>)
        ensures
            r@ == tag_spec(content@),
            r.is_borrowed(),
    {
        let k = scan_to_space(content, 0);
        BytesStart::from_content(content, k)
    }

    fn read_text(&mut self, p: usize) -> (r: Result<Event<'a>, Error>)
        requires
            old(self).wf(),
            old(self).state().phase == Phase::AtText,
            p < old(self).input().len(),
        ensures
            final(self).wf(),
            final(self).input() == old(self).input(),
            final(self).config() == old(self).config(),
            ({
                let s = text_step(old(self).input(), old(self).config(), old(self).state(), p as int);
                &&& final(self).state() == s.next
                &&& match r {
                    Ok(e) => s.result == Ok::<EventSpec, ErrorSpec>(e@) && e.is_borrowed(),
                    Err(e) => s.result == Err::<EventSpec, ErrorSpec>(e@),
                }
            }),
    {
        let end = scan_byte(self.input, p, LT);
        let raw = subslice(self.input, p, end);
        let data = if self.config.trim_text_end {
            subslice(raw, 0, trim_end(raw))
        } else {
            raw
        };
        self.pos = end;
        self.prolog = false;
        Ok(Event::Text(BytesText::from_escaped(data)))
    }

    fn read_end(&mut self, p: usize) -> (r: Result<Event<'a>, Error>)
        requires
            old(self).wf(),
            old(self).state().phase == Phase::AtText,
            p + 1 < old(self).input().len(),
        ensures
            final(self).wf(),
            final(self).input() == old(self).input(),
            final(self).config() == old(self).config(),
            ({
                let s = end_step(old(self).input(), old(self).config(), old(self).state(), p as int);
                &&& final(self).state() == s.next
                &&& match r {
                    Ok(e) => s.result == Ok::<EventSpec, ErrorSpec>(e@) && e.is_borrowed(),
                    Err(e) => s.result == Err::<EventSpec, ErrorSpec>(e@),
                }
            }),
    {
        let n = self.input.len();
        let gt = scan_byte(self.input, p + 2, GT);
        if gt >= n {
            return self.fail(SyntaxKind::UnclosedTag, p);
        }
        let raw = subslice(self.input, p + 2, gt);
        if self.config.check_end_names {
            let name = subslice(raw, 0, trim_end(raw));
            let n = self.opened.len();
            if n == 0 {
                return Err(Error::EndEventMismatch { expected: Vec::new(), found: to_vec(name) });
            }
            let expected: &[u8] = self.opened[n - 1];
            assert(expected@ == self.state().opened.last());
            if !slice_eq(expected, name) {
                return Err(
                    Error::EndEventMismatch { expected: to_vec(expected), found: to_vec(name) },
                );
            }
        }
        self.pop_name();
        self.pos = gt + 1;
        self.prolog = false;
        Ok(Event::End(BytesEnd::new(raw)))
    }

    fn read_comment(&mut self, p: usize) -> (r: Result<Event<'a>, Error>)
        requires
            old(self).wf(),
            old(self).state().phase == Phase::AtText,
            p + 4 <= old(self).input().len(),
        ensures
            final(self).wf(),
            final(self).input() == old(self).input(),
            final(self).config() == old(self).config(),
            ({
                let s = comment_step(
                    old(self).input(),
                    old(self).config(),
                    old(self).state(),
                    p as int,
                );
                &&& final(self).state() == s.next
                &&& match r {
                    Ok(e) => s.result == Ok::<EventSpec, ErrorSpec>(e@) && e.is_borrowed(),
                    Err(e) => s.result == Err::<EventSpec, ErrorSpec>(e@),
                }
            }),
    {
        let n = self.input.len();
        let k = scan_pattern(self.input, p + 4, &[DASH, DASH, GT]);
        if k >= n {
            return self.fail(SyntaxKind::UnclosedComment, p);
        }
        let body = subslice(self.input, p + 4, k);
        if self.config.check_comments {
            let dashes = scan_pattern(body, 0, &[DASH, DASH]);
            if dashes < body.len() {
                return self.fail(SyntaxKind::DoubleDashInComment, p + 4 + dashes);
            }
        }
        self.pos = k + 3;
        Ok(Event::Comment(BytesText::from_escaped(body)))
    }

    fn read_cdata(&mut self, p: usize) -> (r: Result<Event<'a>, Error>)
        requires
            old(self).wf(),
            old(self).state().phase == Phase::AtText,
            p + 9 <= old(self).input().len(),
        ensures
            final(self).wf(),
            final(self).input() == old(self).input(),
            final(self).config() == old(self).config(),
            ({
                let s = cdata_step(old(self).input(), old(self).state(), p as int);
                &&& final(self).state() == s.next
                &&& match r {
                    Ok(e) => s.result == Ok::<EventSpec, ErrorSpec>(e@) && e.is_borrowed(),
                    Err(e) => s.result == Err::<EventSpec, ErrorSpec>(e@),
                }
            }),
    {
        let n = self.input.len();
        let k = scan_pattern(self.input, p + 9, &[RBRACKET, RBRACKET, GT]);
        if k >= n {
            return self.fail(SyntaxKind::UnclosedCData, p);
        }
        let body = subslice(self.input, p + 9, k);
        self.pos = k + 3;
        self.prolog = false;
        Ok(Event::CData(BytesCData::new(body)))
    }

    fn read_doctype(&mut self, p: usize) -> (r: Result<Event<'a>, Error>)
        requires
            old(self).wf(),
            old(self).state().phase == Phase::AtText,
            p + 10 <= old(self).input().len(),
        ensures
            final(self).wf(),
            final(self).input() == old(self).input(),
            final(self).config() == old(self).config(),
            ({
                let s = doctype_step(old(self).input(), old(self).state(), p as int);
                &&& final(self).state() == s.next
                &&& match r {
                    Ok(e) => s.result == Ok::<EventSpec, ErrorSpec>(e@) && e.is_borrowed(),
                    Err(e) => s.result == Err::<EventSpec, ErrorSpec>(e@),
                }
            }),
    {
        let n = self.input.len();
        let k = scan_doctype_end(self.input, p + 10);
        if k >= n {
            return self.fail(SyntaxKind::UnclosedDocType, p);
        }
        let body = subslice(self.input, p + 10, k);
        self.pos = k + 1;
        Ok(Event::DocType(BytesText::from_escaped(body)))
    }

    fn read_bang(&mut self, p: usize) -> (r: Result<Event<'a>, Error>)
        requires
            old(self).wf(),
            old(self).state().phase == Phase::AtText,
            p < old(self).input().len(),
        ensures
            final(self).wf(),
            final(self).input() == old(self).input(),
            final(self).config() == old(self).config(),
            ({
                let s = bang_step(old(self).input(), old(self).config(), old(self).state(), p as int);
                &&& final(self).state() == s.next
                &&& match r {
                    Ok(e) => s.result == Ok::<EventSpec, ErrorSpec>(e@) && e.is_borrowed(),
                    Err(e) => s.result == Err::<EventSpec, ErrorSpec>(e@),
                }
            }),
    {
        if has_at(self.input, p, &[LT, BANG, DASH, DASH]) {
            self.read_comment(p)
        } else if has_at(
            self.input,
            p,
            &[LT, BANG, LBRACKET, 'C' as u8, 'D' as u8, 'A' as u8, 'T' as u8, 'A' as u8, LBRACKET],
        ) {
            self.read_cdata(p)
        } else if has_at(
            self.input,
            p,
            &[
                LT, BANG, 'D' as u8, 'O' as u8, 'C' as u8, 'T' as u8, 'Y' as u8, 'P' as u8,
                'E' as u8, ' ' as u8,
            ],
        ) {
            self.read_doctype(p)
        } else {
            self.fail(SyntaxKind::InvalidBang, p)
        }
    }

    fn body_is_decl(body: &[u8]) -> (r: bool)
        ensures
            r == is_decl(body@),
    {
        body.len() >= 4 && body[0] == 'x' as u8 && body[1] == 'm' as u8 && body[2] == 'l' as u8
            && is_space(body[3])
    }

    fn read_question(&mut self, p: usize) -> (r: Result<Event<'a>, Error>)
        requires
            old(self).wf(),
            old(self).state().phase == Phase::AtText,
            p + 1 < old(self).input().len(),
        ensures
            final(self).wf(),
            final(self).input() == old(self).input(),
            final(self).config() == old(self).config(),
            ({
                let s = question_step(old(self).input(), old(self).state(), p as int);
                &&& final(self).state() == s.next
                &&& match r {
                    Ok(e) => s.result == Ok::<EventSpec, ErrorSpec>(e@) && e.is_borrowed(),
                    Err(e) => s.result == Err::<EventSpec, ErrorSpec>(e@),
                }
            }),
    {
        let n = self.input.len();
        let k = scan_pattern(self.input, p + 2, &[QUESTION, GT]);
        if k >= n {
            return self.fail(SyntaxKind::UnclosedPI, p);
        }
        let body = subslice(self.input, p + 2, k);
        self.pos = k + 2;
        if self.prolog && Self::body_is_decl(body) {
            self.prolog = false;
            Ok(Event::Decl(BytesDecl::from_content(body)))
        } else {
            Ok(Event::PI(BytesText::from_escaped(body)))
        }
    }

    fn read_start(&mut self, p: usize) -> (r: Result<Event<'a>, Error>)
        requires
            old(self).wf(),
            p < old(self).input().len(),
            old(self).state().phase == Phase::AtText,
        ensures
            final(self).wf(),
            final(self).input() == old(self).input(),
            final(self).config() == old(self).config(),
            ({
                let s = start_step(
                    old(self).input(),
                    old(self).config(),
                    old(self).state(),
                    p as int,
                );
                &&& final(self).state() == s.next
                &&& match r {
                    Ok(e) => s.result == Ok::<EventSpec, ErrorSpec>(e@) && e.is_borrowed(),
                    Err(e) => s.result == Err::<EventSpec, ErrorSpec>(e@),
                }
            }),
    {
        let n = self.input.len();
        let gt = scan_tag_end(self.input, p + 1);
        if gt >= n {
            return self.fail(SyntaxKind::UnclosedTag, p);
        }
        let body = subslice(self.input, p + 1, gt);
        let t = trim_end(body);
        if t > 0 && body[t - 1] == SLASH {
            let tag = Self::make_tag(subslice(body, 0, t - 1));
            if self.config.expand_empty_elements {
                self.push_name(tag.name_borrowed());
                assert(self.opened@.len() == names_view(self.opened@).len());
                self.phase = Phase::AtEmptyEnd;
                self.pos = gt + 1;
                self.prolog = false;
                Ok(Event::Start(tag))
            } else {
                self.pos = gt + 1;
                self.prolog = false;
                Ok(Event::Empty(tag))
            }
        } else {
            let tag = Self::make_tag(body);
            self.push_name(tag.name_borrowed());
            self.pos = gt + 1;
            self.prolog = false;
            Ok(Event::Start(tag))
        }
    }

    fn start_of_token(&self) -> (p: usize)
        requires
            self.wf(),
        ensures
            p == text_start(self.input(), self.config(), self.state().pos),
            self.state().pos <= p <= self.input().len(),
    {
        let q = scan_spaces(self.input, self.pos);
        if self.config.trim_text_start || (self.config.trim_text_end && (q >= self.input.len()
            || self.input[q] == LT)) {
            q
        } else {
            self.pos
        }
    }

    /// Advances to the next event.
    ///
    /// The event borrows from the input. An error leaves the reader as it
    /// was, so that the same call gives the same error again.
    pub fn read_event(&mut self) -> (r: Result<Event<'a>, Error>)
        requires
            old(self).wf(),
        ensures
            final(self).wf(),
            final(self).input() == old(self).input(),
            final(self).config() == old(self).config(),
            final(self).state() == step(
                old(self).input(),
                old(self).config(),
                old(self).state(),
            ).next,
            match r {
                Ok(e) => step(old(self).input(), old(self).config(), old(self).state()).result
                    == Ok::<EventSpec, ErrorSpec>(e@) && e.is_borrowed(),
                Err(e) => step(old(self).input(), old(self).config(), old(self).state()).result
                    == Err::<EventSpec, ErrorSpec>(e@),
            },
    {
        match self.phase {
            Phase::Done => Ok(Event::Eof),
            Phase::AtEmptyEnd => {
                let n = self.opened.len();
                let name: &'a [u8] = self.opened[n - 1];
                assert(name@ == self.state().opened.last());
                self.pop_name();
                self.prolog = false;
                Ok(Event::End(BytesEnd::new(name)))
            },
            Phase::AtText => {
                let p = self.start_of_token();
                if p >= self.input.len() {
                    self.pos = self.input.len();
                    self.phase = Phase::Done;
                    Ok(Event::Eof)
                } else if self.input[p] == LT {
                    if p + 1 >= self.input.len() {
                        self.fail(SyntaxKind::UnclosedTag, p)
                    } else {
                        let b = self.input[p + 1];
                        if b == SLASH {
                            self.read_end(p)
                        } else if b == BANG {
                            self.read_bang(p)
                        } else if b == QUESTION {
                            self.read_question(p)
                        } else {
                            self.read_start(p)
                        }
                    }
                } else {
                    self.read_text(p)
                }
            },
        }
    }
}

} // verus!
