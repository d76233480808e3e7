//! Renders events to bytes, with optional indentation.

use vstd::prelude::*;
use crate::events::{Event, events_view, EventSpec};
use crate::utils::{BANG, DASH, extend, GT, LBRACKET, LT, NEWLINE, QUESTION, RBRACKET, SLASH};

verus! {

/// `<!--`
pub open spec fn comment_open() -> Seq<u8> {
    seq![LT, BANG, DASH, DASH]
}

/// `-->`
pub open spec fn comment_close() -> Seq<u8> {
    seq![DASH, DASH, GT]
}

/// `<![CDATA[`
pub open spec fn cdata_open() -> Seq<u8> {
    seq![LT, BANG, LBRACKET, 'C' as u8, 'D' as u8, 'A' as u8, 'T' as u8, 'A' as u8, LBRACKET]
}

/// `]]>`
pub open spec fn cdata_close() -> Seq<u8> {
    seq![RBRACKET, RBRACKET, GT]
}

/// `<?`
pub open spec fn pi_open() -> Seq<u8> {
    seq![LT, QUESTION]
}

/// `?>`
pub open spec fn pi_close() -> Seq<u8> {
    seq![QUESTION, GT]
}

/// `<!DOCTYPE `, with the space that ends it.
pub open spec fn doctype_open() -> Seq<u8> {
    seq![
        LT, BANG, 'D' as u8, 'O' as u8, 'C' as u8, 'T' as u8, 'Y' as u8, 'P' as u8, 'E' as u8,
        ' ' as u8,
    ]
}

/// The state of pretty-printing: how deep the writer stands in the tree, the
/// byte and the width of one level, and whether the next markup starts a new
/// line.
#[derive(Debug, Clone, Copy, PartialEq, Eq)]
pub struct Indentation {
    pub should_line_break: bool,
    pub indent_char: u8,
    pub indent_size: usize,
    pub depth: usize,
}

impl Indentation {
    /// The indentation at the current depth: `indent_char`, `depth` times
    /// `indent_size` times over.
    pub open spec fn current_spec(self) -> Seq<u8> {
        Seq::new((self.depth * self.indent_size) as nat, |i: int| self.indent_char)
    }

    /// The state one level deeper.
    pub open spec fn grown(self) -> Indentation {
        Indentation { depth: (self.depth + 1) as usize, ..self }
    }

    /// The state one level up; at the top it stays.
    pub open spec fn shrunk(self) -> Indentation {
        Indentation {
            depth: if self.depth > 0 {
                (self.depth - 1) as usize
            } else {
                0
            },
            ..self
        }
    }

    /// The state before anything was written: at the top, with no line break
    /// due before the first markup.
    pub fn new(indent_char: u8, indent_size: usize) -> (r: Indentation)
        ensures
            r == (Indentation { should_line_break: false, indent_char, indent_size, depth: 0 }),
    {
        Indentation { should_line_break: false, indent_char, indent_size, depth: 0 }
    }

    /// Goes one level deeper.
    pub fn grow(&mut self)
        requires
            old(self).depth < usize::MAX,
        ensures
            *final(self) == old(self).grown(),
    {
        self.depth = self.depth + 1;
    }

    /// Goes one level up, unless at the top.
    pub fn shrink(&mut self)
        ensures
            *final(self) == old(self).shrunk(),
    {
        if self.depth > 0 {
            self.depth = self.depth - 1;
        }
    }

    /// Appends the indentation at the current depth to `out`.
    pub fn write_current(&self, out: &mut Vec<u8>)
        ensures
            final(out)@ == old(out)@ + self.current_spec(),
    {
        let mut d: usize = 0;
        assert(out@ =~= old(out)@ + Seq::new(0nat, |i: int| self.indent_char));
        while d < self.depth
            invariant
                d <= self.depth,
                out@ == old(out)@ + Seq::new(
                    (d * self.indent_size) as nat,
                    |i: int| self.indent_char,
                ),
            decreases self.depth - d,
        {
            let mut k: usize = 0;
            let ghost row = out@;
            assert(out@ =~= row + Seq::new(0nat, |i: int| self.indent_char));
            while k < self.indent_size
                invariant
                    k <= self.indent_size,
                    out@ == row + Seq::new(k as nat, |i: int| self.indent_char),
                decreases self.indent_size - k,
            {
                out.push(self.indent_char);
                k += 1;
                assert(out@ =~= row + Seq::new(k as nat, |i: int| self.indent_char));
            }
            assert((d + 1) * self.indent_size == d * self.indent_size + self.indent_size)
                by (nonlinear_arith);
            assert(d * self.indent_size >= 0) by (nonlinear_arith);
            d += 1;
            assert(out@ =~= old(out)@ + Seq::new(
                (d * self.indent_size) as nat,
                |i: int| self.indent_char,
            ));
        }
    }
}

/// The line break and indentation that precede a piece of markup: a line feed
/// and the current indentation where indentation is configured and a line
/// break is due, nothing otherwise.
pub open spec fn line_break(indent: Option<Indentation>) -> Seq<u8> {
    match indent {
        Some(i) => if i.should_line_break {
            seq![NEWLINE] + i.current_spec()
        } else {
            Seq::<u8>::empty()
        },
        None => Seq::<u8>::empty(),
    }
}

/// A piece of markup with its framing, on a line of its own where that is due.
pub open spec fn wrapped(
    indent: Option<Indentation>,
    before: Seq<u8>,
    value: Seq<u8>,
    after: Seq<u8>,
) -> Seq<u8> {
    line_break(indent) + before + value + after
}

/// The indentation state one level up, where there is one.
pub open spec fn shrunk(indent: Option<Indentation>) -> Option<Indentation> {
    match indent {
        Some(i) => Some(i.shrunk()),
        None => None,
    }
}

/// The bytes that an event is rendered to, given the indentation state in
/// which it is written.
///
/// A closing tag is indented one level up from where the writer stands; text
/// and CDATA are never indented.
pub open spec fn event_bytes(indent: Option<Indentation>, event: EventSpec) -> Seq<u8> {
    match event {
        EventSpec::Start(t) => wrapped(indent, seq![LT], t.raw(), seq![GT]),
        EventSpec::End(n) => wrapped(shrunk(indent), seq![LT, SLASH], n, seq![GT]),
        EventSpec::Empty(t) => wrapped(indent, seq![LT], t.raw(), seq![SLASH, GT]),
        EventSpec::Text(d) => d,
        EventSpec::Comment(d) => wrapped(indent, comment_open(), d, comment_close()),
        EventSpec::CData(d) => cdata_open() + d + cdata_close(),
        EventSpec::Decl(d) => wrapped(indent, pi_open(), d, pi_close()),
        EventSpec::PI(d) => wrapped(indent, pi_open(), d, pi_close()),
        EventSpec::DocType(d) => wrapped(indent, doctype_open(), d, seq![GT]),
        EventSpec::Eof => Seq::<u8>::empty(),
    }
}

/// The indentation state after an event was written: one level deeper after
/// an opening tag, one level up after a closing tag, and with a line break
/// due unless the event was text or CDATA.
pub open spec fn indent_after(indent: Option<Indentation>, event: EventSpec) -> Option<
    Indentation,
> {
    match indent {
        None => None,
        Some(i) => {
            let moved = match event {
                EventSpec::Start(_) => i.grown(),
                EventSpec::End(_) => i.shrunk(),
                _ => i,
            };
            Some(
                Indentation {
                    should_line_break: !(event is Text || event is CData),
                    ..moved
                },
            )
        },
    }
}

/// Whether an event can be written in the given state: an opening tag needs
/// room for one more level of depth.
pub open spec fn can_write(indent: Option<Indentation>, event: EventSpec) -> bool {
    match indent {
        Some(i) => event is Start ==> i.depth < usize::MAX,
        None => true,
    }
}

/// The bytes that a sequence of events is rendered to, one after the other,
/// starting in the given indentation state.
pub open spec fn events_bytes(indent: Option<Indentation>, events: Seq<EventSpec>) -> Seq<u8>
    decreases events.len(),
{
    if events.len() == 0 {
        Seq::<u8>::empty()
    } else {
        event_bytes(indent, events[0]) + events_bytes(
            indent_after(indent, events[0]),
            events.drop_first(),
        )
    }
}

/// The indentation state after a sequence of events.
pub open spec fn indent_after_all(indent: Option<Indentation>, events: Seq<EventSpec>) -> Option<
    Indentation,
>
    decreases events.len(),
{
    if events.len() == 0 {
        indent
    } else {
        indent_after_all(indent_after(indent, events[0]), events.drop_first())
    }
}

/// One more event written: the bytes of the events so far, then those of
/// the event in the state that the events so far lead to.
pub proof fn lemma_events_bytes_push(
    indent: Option<Indentation>,
    events: Seq<EventSpec>,
    event: EventSpec,
)
    ensures
        events_bytes(indent, events.push(event)) == events_bytes(indent, events) + event_bytes(
            indent_after_all(indent, events),
            event,
        ),
        indent_after_all(indent, events.push(event)) == indent_after(
            indent_after_all(indent, events),
            event,
        ),
    decreases events.len(),
{
    let longer = events.push(event);
    if events.len() == 0 {
        assert(longer.drop_first() =~= Seq::<EventSpec>::empty());
        assert(longer[0] == event);
        assert(events_bytes(indent_after(indent, event), longer.drop_first())
            =~= Seq::<u8>::empty());
        assert(events_bytes(indent, events) =~= Seq::<u8>::empty());
        assert(events_bytes(indent, longer) =~= event_bytes(indent, event));
        assert(events_bytes(indent, events) + event_bytes(indent, event) =~= event_bytes(
            indent,
            event,
        ));
        assert(indent_after_all(indent_after(indent, event), longer.drop_first())
            == indent_after(indent, event));
    } else {
        let next = indent_after(indent, events[0]);
        assert(longer[0] == events[0]);
        assert(longer.drop_first() =~= events.drop_first().push(event));
        lemma_events_bytes_push(next, events.drop_first(), event);
        assert(events_bytes(indent, longer) =~= events_bytes(indent, events) + event_bytes(
            indent_after_all(indent, events),
            event,
        ));
    }
}

/// A writer of events into a buffer of bytes.
#[derive(Debug, Clone)]
pub struct Writer {
    pub(crate) writer: Vec<u8>,
    pub(crate) indent: Option<Indentation>,
}

impl Writer {
    /// The bytes written so far.
    pub open(crate) spec fn output(&self) -> Seq<u8> {
        self.writer@
    }

    /// The indentation state, if indentation is configured.
    pub open(crate) spec fn indent(&self) -> Option<Indentation> {
        self.indent
    }

    /// A writer without indentation that appends to `inner`.
    pub fn new(inner: Vec<u8>) -> (r: Writer)
        ensures
            r.output() == inner@,
            r.indent() is None,
    {
        Writer { writer: inner, indent: None }
    }

    /// A writer that appends to `inner` and puts each piece of markup on a
    /// line of its own, indented by `indent_size` times `indent_char` per
    /// level.
    pub fn new_with_indent(inner: Vec<u8>, indent_char: u8, indent_size: usize) -> (r: Writer)
        ensures
            r.output() == inner@,
            r.indent() == Some(
                Indentation { should_line_break: false, indent_char, indent_size, depth: 0 },
            ),
    {
        Writer { writer: inner, indent: Some(Indentation::new(indent_char, indent_size)) }
    }

    /// Gives up the writer for the bytes written.
    pub fn into_inner(self) -> (r: Vec<u8>)
        ensures
            r@ == self.output(),
    {
        self.writer
    }

    /// The bytes written so far.
    pub fn get_ref(&self) -> (r: &[u8])
        ensures
            r@ == self.output(),
    {
        self.writer.as_slice()
    }

    /// The indentation state, if indentation is configured.
    pub fn indentation(&self) -> (r: Option<Indentation>)
        ensures
            r == self.indent(),
    {
        self.indent
    }

    /// Hands out the bytes written so far and starts over with an empty
    /// buffer; the indentation state stays.
    pub fn take_output(&mut self) -> (r: Vec<u8>)
        ensures
            r@ == old(self).output(),
            final(self).output() == Seq::<u8>::empty(),
            final(self).indent() == old(self).indent(),
    {
        let mut r: Vec<u8> = Vec::new();
        r.append(&mut self.writer);
        assert(r@ =~= old(self).output());
        r
    }

    /// Whether `event` can be written now: an opening tag needs room for one
    /// more level of depth.
    pub fn accepts(&self, event: &Event) -> (r: bool)
        ensures
            r == can_write(self.indent(), event@),
    {
        match self.indent {
            Some(i) => match event {
                Event::Start(_) => i.depth < usize::MAX,
                _ => true,
            },
            None => true,
        }
    }

    /// Writes one event: its framing and content, preceded by a line break
    /// and indentation where those are due.
    pub fn write_event(&mut self, event: &Event)
        requires
            can_write(old(self).indent(), event@),
        ensures
            final(self).output() == old(self).output() + event_bytes(old(self).indent(), event@),
            final(self).indent() == indent_after(old(self).indent(), event@),
    {
        let mut next_should_line_break = true;
        match event {
            Event::Start(e) => {
                self.write_wrapped(&[LT], e.as_bytes(), &[GT]);
                if let Some(i) = &mut self.indent {
                    i.grow();
                }
            },
            Event::End(e) => {
                if let Some(i) = &mut self.indent {
                    i.shrink();
                }
                self.write_wrapped(&[LT, SLASH], e.as_bytes(), &[GT]);
            },
            Event::Empty(e) => {
                self.write_wrapped(&[LT], e.as_bytes(), &[SLASH, GT]);
            },
            Event::Text(e) => {
                next_should_line_break = false;
                self.write(e.as_bytes());
            },
            Event::Comment(e) => {
                self.write_wrapped(&[LT, BANG, DASH, DASH], e.as_bytes(), &[DASH, DASH, GT]);
            },
            Event::CData(e) => {
                next_should_line_break = false;
                self.write(
                    &[
                        LT, BANG, LBRACKET, 'C' as u8, 'D' as u8, 'A' as u8, 'T' as u8, 'A' as u8,
                        LBRACKET,
                    ],
                );
                self.write(e.as_bytes());
                self.write(&[RBRACKET, RBRACKET, GT]);
            },
            Event::Decl(e) => {
                self.write_wrapped(&[LT, QUESTION], e.as_bytes(), &[QUESTION, GT]);
            },
            Event::PI(e) => {
                self.write_wrapped(&[LT, QUESTION], e.as_bytes(), &[QUESTION, GT]);
            },
            Event::DocType(e) => {
                self.write_wrapped(
                    &[
                        LT, BANG, 'D' as u8, 'O' as u8, 'C' as u8, 'T' as u8, 'Y' as u8, 'P' as u8,
                        'E' as u8, ' ' as u8,
                    ],
                    e.as_bytes(),
                    &[GT],
                );
            },
            Event::Eof => {},
        }
        if let Some(i) = &mut self.indent {
            i.should_line_break = next_should_line_break;
        }
        assert(self.writer@ =~= old(self).output() + event_bytes(old(self).indent(), event@));
    }

    /// Writes events one after the other, up to the first that cannot be
    /// written, and tells how many were written.
    pub fn write_events(&mut self, events: &[Event]) -> (written: usize)
        ensures
            written <= events@.len(),
            final(self).output() == old(self).output() + events_bytes(
                old(self).indent(),
                events_view(events@).take(written as int),
            ),
            final(self).indent() == indent_after_all(
                old(self).indent(),
                events_view(events@).take(written as int),
            ),
            written < events@.len() ==> !can_write(
                final(self).indent(),
                events@[written as int]@,
            ),
            old(self).indent() is None ==> written == events@.len(),
    {
        let ghost all = events_view(events@);
        let mut i: usize = 0;
        proof {
            assert(all.take(0) =~= Seq::<EventSpec>::empty());
            assert(self.writer@ + Seq::<u8>::empty() =~= self.writer@);
        }
        while i < events.len()
            invariant
                i <= events@.len(),
                all == events_view(events@),
                self.output() == old(self).output() + events_bytes(
                    old(self).indent(),
                    all.take(i as int),
                ),
                self.indent() == indent_after_all(old(self).indent(), all.take(i as int)),
                old(self).indent() is None ==> self.indent() is None,
            decreases events@.len() - i,
        {
            if !self.accepts(&events[i]) {
                return i;
            }
            proof {
                lemma_events_bytes_push(old(self).indent(), all.take(i as int), all[i as int]);
                assert(all.take(i + 1) =~= all.take(i as int).push(all[i as int]));
                assert(all[i as int] == events@[i as int]@);
            }
            let ghost before = self.writer@;
            self.write_event(&events[i]);
            assert(self.writer@ =~= old(self).output() + (events_bytes(
                old(self).indent(),
                all.take(i as int),
            ) + event_bytes(
                indent_after_all(old(self).indent(), all.take(i as int)),
                all[i as int],
            )));
            i += 1;
        }
        i
    }

    /// Writes a line feed and the indentation at the current depth, if
    /// indentation is configured; nothing otherwise.
    pub fn write_indent(&mut self)
        ensures
            final(self).output() == old(self).output() + (match old(self).indent() {
                Some(i) => seq![NEWLINE] + i.current_spec(),
                None => Seq::<u8>::empty(),
            }),
            final(self).indent() == old(self).indent(),
    {
        if let Some(i) = self.indent {
            self.writer.push(NEWLINE);
            i.write_current(&mut self.writer);
            assert(self.writer@ =~= old(self).output() + (seq![NEWLINE] + i.current_spec()));
        } else {
            assert(self.writer@ =~= old(self).output() + Seq::<u8>::empty());
        }
    }

    fn write(&mut self, value: &[u8])
        ensures
            final(self).output() == old(self).output() + value@,
            final(self).indent() == old(self).indent(),
    {
        extend(&mut self.writer, value);
    }

    fn write_wrapped(&mut self, before: &[u8], value: &[u8], after: &[u8])
        ensures
            final(self).output() == old(self).output() + wrapped(
                old(self).indent(),
                before@,
                value@,
                after@,
            ),
            final(self).indent() == old(self).indent(),
    {
        if let Some(i) = self.indent {
            if i.should_line_break {
                self.writer.push(NEWLINE);
                i.write_current(&mut self.writer);
            }
        }
        self.write(before);
        self.write(value);
        self.write(after);
        assert(self.writer@ =~= old(self).output() + wrapped(
            old(self).indent(),
            before@,
            value@,
            after@,
        ));
    }
}

} // verus!
