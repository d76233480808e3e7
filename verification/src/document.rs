//! Whole documents: reading every event up to the end, and the laws that
//! hold of what was read.

use vstd::prelude::*;
use crate::errors::{Error, ErrorSpec};
use crate::events::{all_borrowed, Event, events_view, EventSpec};
use crate::reader::{
    Config, end_name, initial_state, Opening, opening, Phase, Reader, ReaderState, state_ok, step,
    tag_spec, text_start,
};
use crate::syntax::{
    find_space, lemma_doctype_end_bounds, lemma_find_byte_bounds, lemma_find_pattern_bounds,
    lemma_find_space_bounds, lemma_skip_spaces_bounds, lemma_tag_end_bounds,
    lemma_trimmed_len_bounds, matches_at, tag_end, trimmed_len,
};
use crate::utils::{GT, LT, SLASH};
use crate::writer::{
    cdata_close, cdata_open, comment_close, comment_open, doctype_open, event_bytes, events_bytes,
    indent_after, pi_close, pi_open,
};

verus! {

/// How much a reader has left to do: twice the input that is unread, and one
/// more where a closing tag is due. Every advance but the last makes it
/// smaller.
pub open spec fn remaining(input: Seq<u8>, st: ReaderState) -> int {
    2 * (input.len() - st.pos) + (if st.phase == Phase::AtEmptyEnd {
        1int
    } else {
        0int
    })
}

/// What reading to the end gives: the events up to the end of the document
/// or the first error, the state in which the reader is left, and that
/// error, if there was one.
pub struct Scan {
    pub events: Seq<EventSpec>,
    pub end: ReaderState,
    pub error: Option<ErrorSpec>,
}

/// Reads from state `st` up to the end of the document or the first error.
///
/// The events are those of the successive advances; the end of the document
/// is the last of them where it is reached. From a sound state every advance
/// but the last leaves less to do, so the test of that is no restriction.
pub open spec fn scan(input: Seq<u8>, cfg: Config, st: ReaderState) -> Scan
    decreases remaining(input, st),
{
    let s = step(input, cfg, st);
    match s.result {
        Err(e) => Scan { events: Seq::empty(), end: s.next, error: Some(e) },
        Ok(ev) => if ev is Eof || !(0 <= remaining(input, s.next) < remaining(input, st)) {
            Scan { events: seq![ev], end: s.next, error: None }
        } else {
            let rest = scan(input, cfg, s.next);
            Scan { events: seq![ev] + rest.events, end: rest.end, error: rest.error }
        },
    }
}

/// What reading a document to its end returns: the first error of the
/// reader; or, where the end is reached while an element is open, that the
/// document ended too early; or the events.
pub open spec fn read_result(sc: Scan) -> Result<Seq<EventSpec>, ErrorSpec> {
    match sc.error {
        Some(e) => Err(e),
        None => if sc.end.opened.len() > 0 {
            Err(ErrorSpec::UnexpectedEof)
        } else {
            Ok(sc.events)
        },
    }
}

/// What reading the document `input` from its start returns.
pub open spec fn document_spec(input: Seq<u8>, cfg: Config) -> Result<Seq<EventSpec>, ErrorSpec> {
    read_result(scan(input, cfg, initial_state()))
}

/// An advance from a sound state leads to a sound state. An error leaves
/// the state as it was; the end of the document ends the reading; every
/// other event leaves less to do.
pub proof fn lemma_step_progress(input: Seq<u8>, cfg: Config, st: ReaderState)
    requires
        state_ok(input, st),
    ensures
        state_ok(input, step(input, cfg, st).next),
        st.pos <= step(input, cfg, st).next.pos,
        match step(input, cfg, st).result {
            Err(_) => step(input, cfg, st).next == st,
            Ok(ev) => if ev is Eof {
                step(input, cfg, st).next.phase == Phase::Done
            } else {
                &&& step(input, cfg, st).next.phase != Phase::Done
                &&& 0 <= remaining(input, step(input, cfg, st).next) < remaining(input, st)
            },
        },
{
    if st.phase == Phase::AtText {
        lemma_skip_spaces_bounds(input, st.pos);
        let p = text_start(input, cfg, st.pos);
        if p < input.len() {
            lemma_find_byte_bounds(input, p, LT);
            lemma_tag_end_bounds(input, p + 1, None);
            if p + 2 <= input.len() {
                lemma_find_byte_bounds(input, p + 2, GT);
                lemma_find_pattern_bounds(input, p + 2, pi_close());
            }
            if p + 4 <= input.len() {
                lemma_find_pattern_bounds(input, p + 4, comment_close());
            }
            if p + 9 <= input.len() {
                lemma_find_pattern_bounds(input, p + 9, cdata_close());
            }
            if p + 10 <= input.len() {
                lemma_doctype_end_bounds(input, p + 10, 0);
            }
        }
    }
}

/// Reading to the end, one advance at a time: the events of the first
/// advance come before those of the rest.
proof fn lemma_scan_unfold(input: Seq<u8>, cfg: Config, st: ReaderState)
    requires
        state_ok(input, st),
    ensures
        match step(input, cfg, st).result {
            Err(e) => scan(input, cfg, st) == (Scan {
                events: Seq::empty(),
                end: st,
                error: Some(e),
            }),
            Ok(ev) => if ev is Eof {
                scan(input, cfg, st) == (Scan {
                    events: seq![ev],
                    end: step(input, cfg, st).next,
                    error: None,
                })
            } else {
                scan(input, cfg, st) == (Scan {
                    events: seq![ev] + scan(input, cfg, step(input, cfg, st).next).events,
                    end: scan(input, cfg, step(input, cfg, st).next).end,
                    error: scan(input, cfg, step(input, cfg, st).next).error,
                })
            },
        },
{
    lemma_step_progress(input, cfg, st);
}

impl<'a> Reader<'a> {
    /// Reads every event up to the end of the document.
    ///
    /// The result is the list of events, the end of the document last, where
    /// the reader raises no error and no element is open at the end. The
    /// first error of the reader is returned as it is; a document that ends
    /// while an element is open is an unexpected end.
    pub fn read_to_end(&mut self) -> (r: Result<Vec<Event<'a>>, Error>)
        requires
            old(self).wf(),
        ensures
            final(self).wf(),
            final(self).input() == old(self).input(),
            final(self).config() == old(self).config(),
            final(self).state() == scan(
                old(self).input(),
                old(self).config(),
                old(self).state(),
            ).end,
            match r {
                Ok(events) => read_result(
                    scan(old(self).input(), old(self).config(), old(self).state()),
                ) == Ok::<Seq<EventSpec>, ErrorSpec>(events_view(events@)) && all_borrowed(
                    events@,
                ),
                Err(e) => read_result(
                    scan(old(self).input(), old(self).config(), old(self).state()),
                ) == Err::<Seq<EventSpec>, ErrorSpec>(e@),
            },
    {
        let mut events: Vec<Event<'a>> = Vec::new();
        let ghost whole = scan(self.input(), self.config(), self.state());
        proof {
            assert(events_view(events@) + whole.events =~= whole.events);
        }
        loop
            invariant
                self.wf(),
                self.input() == old(self).input(),
                self.config() == old(self).config(),
                whole == scan(old(self).input(), old(self).config(), old(self).state()),
                whole.events == events_view(events@) + scan(
                    self.input(),
                    self.config(),
                    self.state(),
                ).events,
                whole.end == scan(self.input(), self.config(), self.state()).end,
                whole.error == scan(self.input(), self.config(), self.state()).error,
                all_borrowed(events@),
            decreases remaining(self.input(), self.state()),
        {
            let ghost before = self.state();
            let ghost seen = events_view(events@);
            proof {
                self.lemma_wf_state_ok();
                lemma_step_progress(self.input(), self.config(), before);
                lemma_scan_unfold(self.input(), self.config(), before);
            }
            match self.read_event() {
                Err(e) => {
                    return Err(e);
                },
                Ok(ev) => {
                    let at_end = ev.is_eof();
                    events.push(ev);
                    proof {
                        assert(events_view(events@) =~= seen.push(ev@));
                        assert(seen + (seq![ev@] + scan(
                            self.input(),
                            self.config(),
                            self.state(),
                        ).events) =~= seen.push(ev@) + scan(
                            self.input(),
                            self.config(),
                            self.state(),
                        ).events);
                        assert(seen + seq![ev@] =~= seen.push(ev@));
                    }
                    if at_end {
                        if self.depth() > 0 {
                            return Err(Error::UnexpectedEof);
                        }
                        return Ok(events);
                    }
                },
            }
        }
    }
}

/// Reads the document `input` from its start to its end.
pub fn read_document<'a>(input: &'a [u8], config: Config) -> (r: Result<Vec<Event<'a>>, Error>)
    ensures
        match r {
            Ok(events) => document_spec(input@, config) == Ok::<Seq<EventSpec>, ErrorSpec>(
                events_view(events@),
            ) && all_borrowed(events@),
            Err(e) => document_spec(input@, config) == Err::<Seq<EventSpec>, ErrorSpec>(e@),
        },
{
    let mut reader = Reader::with_config(input, config);
    reader.read_to_end()
}

/// Whether the token at which `st` stands is no self-closing tag with
/// whitespace between its `/` and its `>`.
pub open spec fn tight_at(input: Seq<u8>, cfg: Config, st: ReaderState) -> bool {
    let p = text_start(input, cfg, st.pos);
    let gt = tag_end(input, p + 1, None);
    let body = input.subrange(p + 1, gt);
    let t = trimmed_len(body);
    (st.phase == Phase::AtText && p + 1 < input.len() && input[p] == LT && opening(input[p + 1])
        == Opening::AtStart && gt < input.len() && t > 0 && body[t - 1] == SLASH) ==> t
        == body.len()
}

/// Whether every self-closing tag that is read from state `st` on ends in
/// `/>`, with nothing between the two bytes.
pub open spec fn tight_empty_tags(input: Seq<u8>, cfg: Config, st: ReaderState) -> bool
    decreases remaining(input, st),
{
    let s = step(input, cfg, st);
    tight_at(input, cfg, st) && match s.result {
        Err(_) => true,
        Ok(ev) => ev is Eof || !(0 <= remaining(input, s.next) < remaining(input, st))
            || tight_empty_tags(input, cfg, s.next),
    }
}

/// Whether the policies leave every token as it stands: text is not
/// trimmed and self-closing tags are not expanded.
pub open spec fn keeps_tokens(cfg: Config) -> bool {
    !cfg.trim_text_start && !cfg.trim_text_end && !cfg.expand_empty_elements
}

/// A stretch of text that starts with `before` and ends with `after` is
/// the two with what lies between them.
proof fn lemma_framed(s: Seq<u8>, a: int, b: int, c: int, d: int, before: Seq<u8>, after: Seq<u8>)
    requires
        0 <= a <= b <= c <= d <= s.len(),
        s.subrange(a, b) == before,
        s.subrange(c, d) == after,
    ensures
        before + s.subrange(b, c) + after == s.subrange(a, d),
{
    assert(s.subrange(a, b) + s.subrange(b, c) + s.subrange(c, d) =~= s.subrange(a, d));
}

/// An event that was read without trimming or expansion is rendered, without
/// indentation, to the very bytes that it was read from, unless it is a
/// self-closing tag with whitespace after its `/`.
pub proof fn lemma_step_exact(input: Seq<u8>, cfg: Config, st: ReaderState)
    requires
        state_ok(input, st),
        st.phase != Phase::AtEmptyEnd,
        keeps_tokens(cfg),
        step(input, cfg, st).result is Ok,
        tight_at(input, cfg, st),
    ensures
        event_bytes(None, step(input, cfg, st).result->Ok_0) == input.subrange(
            st.pos,
            step(input, cfg, st).next.pos,
        ),
        indent_after(None, step(input, cfg, st).result->Ok_0) is None,
        step(input, cfg, st).next.phase != Phase::AtEmptyEnd,
{
    let p = st.pos;
    let s = step(input, cfg, st);
    let ev = s.result->Ok_0;
    let e = s.next.pos;
    lemma_step_progress(input, cfg, st);
    if st.phase == Phase::Done || p >= input.len() {
        assert(input.subrange(p, e) =~= Seq::<u8>::empty());
    } else if input[p] != LT {
        assert(event_bytes(None, ev) == input.subrange(p, e));
    } else {
        assert(p + 1 < input.len());
        let empty = Seq::<u8>::empty();
        match opening(input[p + 1]) {
            Opening::AtEnd => {
                lemma_find_byte_bounds(input, p + 2, GT);
                assert(input.subrange(p, p + 2) =~= seq![LT, SLASH]);
                assert(input.subrange(e - 1, e) =~= seq![GT]);
                lemma_framed(input, p, p + 2, e - 1, e, seq![LT, SLASH], seq![GT]);
                assert(empty + seq![LT, SLASH] =~= seq![LT, SLASH]);
            },
            Opening::AtBang => {
                if matches_at(input, p, comment_open()) {
                    lemma_find_pattern_bounds(input, p + 4, comment_close());
                    lemma_framed(
                        input,
                        p,
                        p + 4,
                        e - 3,
                        e,
                        comment_open(),
                        comment_close(),
                    );
                    assert(empty + comment_open()
                        =~= comment_open());
                } else if matches_at(input, p, cdata_open()) {
                    lemma_find_pattern_bounds(input, p + 9, cdata_close());
                    lemma_framed(
                        input,
                        p,
                        p + 9,
                        e - 3,
                        e,
                        cdata_open(),
                        cdata_close(),
                    );
                } else {
                    lemma_doctype_end_bounds(input, p + 10, 0);
                    assert(input.subrange(e - 1, e) =~= seq![GT]);
                    lemma_framed(
                        input,
                        p,
                        p + 10,
                        e - 1,
                        e,
                        doctype_open(),
                        seq![GT],
                    );
                    assert(empty + doctype_open()
                        =~= doctype_open());
                }
            },
            Opening::AtQuery => {
                lemma_find_pattern_bounds(input, p + 2, pi_close());
                assert(input.subrange(p, p + 2) =~= pi_open());
                lemma_framed(input, p, p + 2, e - 2, e, pi_open(), pi_close());
                assert(empty + pi_open() =~= pi_open());
            },
            Opening::AtStart => {
                lemma_tag_end_bounds(input, p + 1, None);
                let gt = e - 1;
                let body = input.subrange(p + 1, gt);
                let t = trimmed_len(body);
                lemma_trimmed_len_bounds(body);
                assert(input.subrange(p, p + 1) =~= seq![LT]);
                assert(empty + seq![LT] =~= seq![LT]);
                if t > 0 && body[t - 1] == SLASH {
                    let content = body.take(t - 1);
                    lemma_find_space_bounds(content, 0);
                    let k = find_space(content, 0);
                    assert(content.take(k) + content.skip(k) =~= content);
                    assert(content =~= input.subrange(p + 1, gt - 1));
                    assert(input.subrange(gt - 1, e) =~= seq![SLASH, GT]);
                    lemma_framed(input, p, p + 1, gt - 1, e, seq![LT], seq![SLASH, GT]);
                } else {
                    lemma_find_space_bounds(body, 0);
                    let k = find_space(body, 0);
                    assert(body.take(k) + body.skip(k) =~= body);
                    assert(input.subrange(gt, e) =~= seq![GT]);
                    lemma_framed(input, p, p + 1, gt, e, seq![LT], seq![GT]);
                }
            },
        }
    }
}

/// Writing back what was read gives the input: where a document is read to
/// its end without error, without trimming and without expansion, and each
/// of its self-closing tags ends in `/>`, the events rendered without
/// indentation are, byte for byte, the input from where the reading
/// started.
pub proof fn lemma_write_read_from(input: Seq<u8>, cfg: Config, st: ReaderState)
    requires
        state_ok(input, st),
        st.phase != Phase::AtEmptyEnd,
        keeps_tokens(cfg),
        scan(input, cfg, st).error is None,
        tight_empty_tags(input, cfg, st),
    ensures
        events_bytes(None, scan(input, cfg, st).events) == input.skip(st.pos),
    decreases remaining(input, st),
{
    let s = step(input, cfg, st);
    lemma_step_progress(input, cfg, st);
    lemma_scan_unfold(input, cfg, st);
    lemma_step_exact(input, cfg, st);
    let ev = s.result->Ok_0;
    let events = scan(input, cfg, st).events;
    assert(events[0] == ev);
    if ev is Eof {
        assert(events.drop_first() =~= Seq::<EventSpec>::empty());
        assert(events_bytes(None, events.drop_first()) =~= Seq::<u8>::empty());
        assert(input.subrange(st.pos, s.next.pos) =~= input.skip(st.pos));
        assert(events_bytes(None, events) =~= input.skip(st.pos));
    } else {
        lemma_write_read_from(input, cfg, s.next);
        assert(events.drop_first() =~= scan(input, cfg, s.next).events);
        assert(input.subrange(st.pos, s.next.pos) + input.skip(s.next.pos) =~= input.skip(
            st.pos,
        ));
    }
}

/// Writing back what was read gives the document: where a document is read
/// from its start to its end without error, without trimming and without
/// expansion, and each of its self-closing tags ends in `/>`, the events
/// rendered without indentation are, byte for byte, the document.
pub proof fn lemma_write_read(input: Seq<u8>, cfg: Config)
    requires
        keeps_tokens(cfg),
        document_spec(input, cfg) is Ok,
        tight_empty_tags(input, cfg, initial_state()),
    ensures
        events_bytes(None, document_spec(input, cfg)->Ok_0) == input,
{
    lemma_write_read_from(input, cfg, initial_state());
    assert(input.skip(0) =~= input);
}

/// The bytes of the token at which `st` stands, as they are read without
/// trimming, but without the whitespace between the `/` and the `>` of a
/// self-closing tag.
pub open spec fn squeezed_token(input: Seq<u8>, cfg: Config, st: ReaderState) -> Seq<u8> {
    if tight_at(input, cfg, st) {
        input.subrange(st.pos, step(input, cfg, st).next.pos)
    } else {
        let gt = tag_end(input, st.pos + 1, None);
        let body = input.subrange(st.pos + 1, gt);
        input.subrange(st.pos, st.pos + 1 + trimmed_len(body)) + seq![GT]
    }
}

/// The document from state `st` on, without the whitespace between the `/`
/// and the `>` of its self-closing tags.
pub open spec fn squeezed(input: Seq<u8>, cfg: Config, st: ReaderState) -> Seq<u8>
    decreases remaining(input, st),
{
    let s = step(input, cfg, st);
    match s.result {
        Err(_) => Seq::empty(),
        Ok(ev) => if ev is Eof || !(0 <= remaining(input, s.next) < remaining(input, st)) {
            squeezed_token(input, cfg, st)
        } else {
            squeezed_token(input, cfg, st) + squeezed(input, cfg, s.next)
        },
    }
}

/// An event that was read without trimming or expansion is rendered, without
/// indentation, to the bytes that it was read from, but for the whitespace
/// between the `/` and the `>` of a self-closing tag.
pub proof fn lemma_step_squeezed(input: Seq<u8>, cfg: Config, st: ReaderState)
    requires
        state_ok(input, st),
        st.phase != Phase::AtEmptyEnd,
        keeps_tokens(cfg),
        step(input, cfg, st).result is Ok,
    ensures
        event_bytes(None, step(input, cfg, st).result->Ok_0) == squeezed_token(input, cfg, st),
        indent_after(None, step(input, cfg, st).result->Ok_0) is None,
        step(input, cfg, st).next.phase != Phase::AtEmptyEnd,
{
    if tight_at(input, cfg, st) {
        lemma_step_exact(input, cfg, st);
    } else {
        let p = st.pos;
        let gt = tag_end(input, p + 1, None);
        let body = input.subrange(p + 1, gt);
        let t = trimmed_len(body);
        let content = body.take(t - 1);
        lemma_tag_end_bounds(input, p + 1, None);
        lemma_trimmed_len_bounds(body);
        lemma_find_space_bounds(content, 0);
        let k = find_space(content, 0);
        assert(content.take(k) + content.skip(k) =~= content);
        assert(Seq::<u8>::empty() + seq![LT] + content + seq![SLASH, GT] =~= input.subrange(
            p,
            p + 1 + t,
        ) + seq![GT]);
    }
}

/// Writing back what was read gives the document but for the whitespace
/// between the `/` and the `>` of its self-closing tags: where a document
/// is read to its end without error, without trimming and without expansion,
/// the events rendered without indentation are the input from where the
/// reading started, without that whitespace.
pub proof fn lemma_write_back_from(input: Seq<u8>, cfg: Config, st: ReaderState)
    requires
        state_ok(input, st),
        st.phase != Phase::AtEmptyEnd,
        keeps_tokens(cfg),
        scan(input, cfg, st).error is None,
    ensures
        events_bytes(None, scan(input, cfg, st).events) == squeezed(input, cfg, st),
    decreases remaining(input, st),
{
    let s = step(input, cfg, st);
    lemma_step_progress(input, cfg, st);
    lemma_scan_unfold(input, cfg, st);
    lemma_step_squeezed(input, cfg, st);
    let ev = s.result->Ok_0;
    let events = scan(input, cfg, st).events;
    assert(events[0] == ev);
    if ev is Eof {
        assert(events.drop_first() =~= Seq::<EventSpec>::empty());
        assert(events_bytes(None, events.drop_first()) =~= Seq::<u8>::empty());
        assert(events_bytes(None, events) =~= squeezed_token(input, cfg, st));
    } else {
        lemma_write_back_from(input, cfg, s.next);
        assert(events.drop_first() =~= scan(input, cfg, s.next).events);
    }
}

/// Writing back what was read gives the document but for the whitespace
/// between the `/` and the `>` of its self-closing tags: for every document
/// that is read from its start to its end without error, without trimming
/// and without expansion.
pub proof fn lemma_write_back(input: Seq<u8>, cfg: Config)
    requires
        keeps_tokens(cfg),
        document_spec(input, cfg) is Ok,
    ensures
        events_bytes(None, document_spec(input, cfg)->Ok_0) == squeezed(
            input,
            cfg,
            initial_state(),
        ),
{
    lemma_write_back_from(input, cfg, initial_state());
}

/// A document whose self-closing tags all end in `/>` has no whitespace to
/// lose: squeezed, it is the document.
pub proof fn lemma_squeezed_tight(input: Seq<u8>, cfg: Config, st: ReaderState)
    requires
        state_ok(input, st),
        st.phase != Phase::AtEmptyEnd,
        keeps_tokens(cfg),
        scan(input, cfg, st).error is None,
        tight_empty_tags(input, cfg, st),
    ensures
        squeezed(input, cfg, st) == input.skip(st.pos),
{
    lemma_write_back_from(input, cfg, st);
    lemma_write_read_from(input, cfg, st);
}

/// The elements that are open after an event, given those that were open
/// before it: an opening tag opens one, a closing tag closes the innermost,
/// if there is one, and every other event leaves them as they are.
pub open spec fn after_event(open: Seq<Seq<u8>>, ev: EventSpec) -> Seq<Seq<u8>> {
    match ev {
        EventSpec::Start(t) => open.push(t.name),
        EventSpec::End(_) => if open.len() > 0 {
            open.drop_last()
        } else {
            open
        },
        _ => open,
    }
}

/// The elements that are open after a sequence of events.
pub open spec fn replay(open: Seq<Seq<u8>>, events: Seq<EventSpec>) -> Seq<Seq<u8>>
    decreases events.len(),
{
    if events.len() == 0 {
        open
    } else {
        replay(after_event(open, events[0]), events.drop_first())
    }
}

/// Whether each closing tag among the events closes the element that is
/// innermost at that point, by its name.
pub open spec fn well_nested(open: Seq<Seq<u8>>, events: Seq<EventSpec>) -> bool
    decreases events.len(),
{
    events.len() == 0 || {
        &&& match events[0] {
            EventSpec::End(raw) => open.len() > 0 && open.last() == end_name(raw),
            _ => true,
        }
        &&& well_nested(after_event(open, events[0]), events.drop_first())
    }
}

/// Whether an event may come before the XML declaration.
pub open spec fn is_prolog_event(ev: EventSpec) -> bool {
    ev is Comment || ev is PI || ev is DocType
}

/// An advance changes the elements that are open as its event says.
pub proof fn lemma_step_opened(input: Seq<u8>, cfg: Config, st: ReaderState)
    requires
        state_ok(input, st),
    ensures
        match step(input, cfg, st).result {
            Ok(ev) => step(input, cfg, st).next.opened == after_event(st.opened, ev),
            Err(_) => step(input, cfg, st).next.opened == st.opened,
        },
{
    lemma_step_progress(input, cfg, st);
}

/// The reader's stack is what the events say: after reading to the end,
/// the elements that are open are those that the events opened and did not
/// close. Their number is the depth at the end.
pub proof fn lemma_depth_follows_events(input: Seq<u8>, cfg: Config, st: ReaderState)
    requires
        state_ok(input, st),
        scan(input, cfg, st).error is None,
    ensures
        scan(input, cfg, st).end.opened == replay(st.opened, scan(input, cfg, st).events),
    decreases remaining(input, st),
{
    let s = step(input, cfg, st);
    lemma_step_progress(input, cfg, st);
    lemma_scan_unfold(input, cfg, st);
    let ev = s.result->Ok_0;
    let events = scan(input, cfg, st).events;
    assert(events[0] == ev);
    assert(s.next.opened == after_event(st.opened, ev));
    if ev is Eof {
        assert(events.drop_first() =~= Seq::<EventSpec>::empty());
        assert(replay(after_event(st.opened, ev), events.drop_first()) == st.opened);
    } else {
        lemma_depth_follows_events(input, cfg, s.next);
        assert(events.drop_first() =~= scan(input, cfg, s.next).events);
    }
}

/// The name of a tag holds no whitespace, so trimming leaves it as it is.
proof fn lemma_tag_name_is_trimmed(content: Seq<u8>)
    ensures
        end_name(tag_spec(content).name) == tag_spec(content).name,
{
    let name = tag_spec(content).name;
    lemma_find_space_bounds(content, 0);
    if name.len() > 0 {
        assert(name.last() == content[name.len() - 1]);
    }
    assert(name.take(trimmed_len(name)) =~= name);
}

/// Where names are checked, what is read without error is well nested:
/// every closing tag bears the name of the element that is innermost where
/// it stands.
pub proof fn lemma_checked_is_nested(input: Seq<u8>, cfg: Config, st: ReaderState)
    requires
        state_ok(input, st),
        cfg.check_end_names,
        st.phase == Phase::AtEmptyEnd ==> end_name(st.opened.last()) == st.opened.last(),
    ensures
        well_nested(st.opened, scan(input, cfg, st).events),
    decreases remaining(input, st),
{
    let s = step(input, cfg, st);
    lemma_step_progress(input, cfg, st);
    lemma_scan_unfold(input, cfg, st);
    let events = scan(input, cfg, st).events;
    match s.result {
        Err(_) => {},
        Ok(ev) => {
            assert(events[0] == ev);
            assert(s.next.opened == after_event(st.opened, ev));
            if ev is Eof {
                assert(events.drop_first() =~= Seq::<EventSpec>::empty());
                assert(well_nested(after_event(st.opened, ev), events.drop_first()));
            } else {
                if s.next.phase == Phase::AtEmptyEnd {
                    let p = text_start(input, cfg, st.pos);
                    let gt = tag_end(input, p + 1, None);
                    let tag_body = input.subrange(p + 1, gt);
                    lemma_tag_name_is_trimmed(tag_body.take(trimmed_len(tag_body) - 1));
                }
                lemma_checked_is_nested(input, cfg, s.next);
                assert(events.drop_first() =~= scan(input, cfg, s.next).events);
            }
        },
    }
}

/// Where the end of a document is reached, no element is open there
/// exactly if reading the document raises neither a mismatch of names nor
/// an unexpected end.
pub proof fn lemma_depth_zero_iff_no_nesting_error(input: Seq<u8>, cfg: Config)
    requires
        scan(input, cfg, initial_state()).error is None,
    ensures
        scan(input, cfg, initial_state()).end.opened.len() == 0 <==> !(match document_spec(
            input,
            cfg,
        ) {
            Err(ErrorSpec::UnexpectedEof) => true,
            Err(ErrorSpec::EndEventMismatch { .. }) => true,
            _ => false,
        }),
        scan(input, cfg, initial_state()).end.opened == replay(
            Seq::empty(),
            scan(input, cfg, initial_state()).events,
        ),
{
    lemma_depth_follows_events(input, cfg, initial_state());
}

/// The end of the document is reported once and last: what is read to the
/// end without error ends with the end of the document and holds it nowhere
/// else.
pub proof fn lemma_eof_is_last(input: Seq<u8>, cfg: Config, st: ReaderState)
    requires
        state_ok(input, st),
        scan(input, cfg, st).error is None,
    ensures
        scan(input, cfg, st).events.len() > 0,
        scan(input, cfg, st).events.last() is Eof,
        forall|i: int|
            0 <= i < scan(input, cfg, st).events.len() - 1 ==> !(scan(input, cfg, st).events[i]
                is Eof),
    decreases remaining(input, st),
{
    let s = step(input, cfg, st);
    lemma_step_progress(input, cfg, st);
    lemma_scan_unfold(input, cfg, st);
    let ev = s.result->Ok_0;
    if !(ev is Eof) {
        lemma_eof_is_last(input, cfg, s.next);
        let rest = scan(input, cfg, s.next).events;
        let events = scan(input, cfg, st).events;
        assert(events.last() == rest.last());
        assert forall|i: int| 0 <= i < events.len() - 1 implies !(events[i] is Eof) by {
            if i > 0 {
                assert(events[i] == rest[i - 1]);
            }
        }
    }
}

/// The XML declaration comes at most once and only in the prolog: where the
/// events hold one, the reader could still expect one at the start, and
/// nothing but comments, processing instructions and document types comes
/// before it.
pub proof fn lemma_decl_in_prolog(input: Seq<u8>, cfg: Config, st: ReaderState)
    requires
        state_ok(input, st),
    ensures
        forall|i: int|
            0 <= i < scan(input, cfg, st).events.len() && scan(input, cfg, st).events[i]
                is Decl ==> st.prolog && forall|j: int|
                0 <= j < i ==> is_prolog_event(scan(input, cfg, st).events[j]),
    decreases remaining(input, st),
{
    let s = step(input, cfg, st);
    lemma_step_progress(input, cfg, st);
    lemma_scan_unfold(input, cfg, st);
    let events = scan(input, cfg, st).events;
    match s.result {
        Err(_) => {},
        Ok(ev) => {
            if !(ev is Eof) {
                lemma_decl_in_prolog(input, cfg, s.next);
                let rest = scan(input, cfg, s.next).events;
                assert forall|i: int| 0 <= i < events.len() && events[i] is Decl implies st.prolog
                    && forall|j: int| 0 <= j < i ==> is_prolog_event(events[j]) by {
                    if i > 0 {
                        assert(events[i] == rest[i - 1]);
                        assert(s.next.prolog);
                        assert(is_prolog_event(ev));
                        assert forall|j: int| 0 <= j < i implies is_prolog_event(events[j]) by {
                            if j > 0 {
                                assert(events[j] == rest[j - 1]);
                            }
                        }
                    }
                }
            }
        },
    }
}

} // verus!
