use crate::errors::OutOfCapacityError;
use crate::graph_model::GraphView;
use crate::hash_graph::{FixedSizeHashGraphImpl, FixedSizeHashGraphMap};
use std::collections::VecDeque;
use std::hash::DefaultHasher;
use vstd::prelude::*;
use vstd::string::{StrSliceExecFns, StringExecFns};

verus! {

/// Whether `c` is white space: one of the characters with the Unicode
/// property White_Space. These are the tab, the line feed, the vertical tab,
/// the form feed, the carriage return, the blank, the next-line character,
/// the no-break blank, the Ogham space mark, the blanks of fixed width from
/// the en quad to the hair space, the line and the paragraph separator, the
/// narrow no-break blank, the medium mathematical blank and the ideographic
/// blank.
pub open spec fn is_white_space(c: char) -> bool {
    let code = c as u32;
    ||| 0x0009 <= code <= 0x000D
    ||| code == 0x0020
    ||| code == 0x0085
    ||| code == 0x00A0
    ||| code == 0x1680
    ||| 0x2000 <= code <= 0x200A
    ||| code == 0x2028
    ||| code == 0x2029
    ||| code == 0x202F
    ||| code == 0x205F
    ||| code == 0x3000
}

/// `char::is_whitespace` answers whether a character has the Unicode
/// property White_Space, which `is_white_space` spells out. That the two
/// agree on every character is trusted.
pub assume_specification[ char::is_whitespace ](c: char) -> (white: bool)
    ensures
        white == is_white_space(c),
;

/// The characters at which a text is cut.
#[derive(Clone, Copy, PartialEq, Eq, Debug)]
pub enum Delimiters {
    /// The characters that end a sentence: `.`, `?`, `!`, `;` and `:`.
    SentenceEnds,
    /// The characters between words: the blank, the comma and the double
    /// quote.
    WordBreaks,
}

impl Delimiters {
    /// Whether the text is cut at `c`.
    pub open spec fn delimits(self, c: char) -> bool {
        match self {
            Delimiters::SentenceEnds => c == '.' || c == '?' || c == '!' || c == ';' || c == ':',
            Delimiters::WordBreaks => c == ' ' || c == ',' || c == '"',
        }
    }

    /// Whether the text is cut at `c`.
    pub fn is_delimiter(&self, c: char) -> (cut: bool)
        ensures
            cut == self.delimits(c),
    {
        match self {
            Delimiters::SentenceEnds => c == '.' || c == '?' || c == '!' || c == ';' || c == ':',
            Delimiters::WordBreaks => c == ' ' || c == ',' || c == '"',
        }
    }
}

/// The position of the first delimiter in `text`; its length if it has none.
pub open spec fn first_delimiter(text: Seq<char>, delimiters: Delimiters) -> int
    decreases text.len(),
{
    if text.len() == 0 || delimiters.delimits(text[0]) {
        0
    } else {
        1 + first_delimiter(text.drop_first(), delimiters)
    }
}

/// The number of white-space characters at the start of `text`.
pub open spec fn leading_white(text: Seq<char>) -> int
    decreases text.len(),
{
    if text.len() == 0 || !is_white_space(text[0]) {
        0
    } else {
        1 + leading_white(text.drop_first())
    }
}

/// The number of white-space characters at the end of `text`.
pub open spec fn trailing_white(text: Seq<char>) -> int
    decreases text.len(),
{
    if text.len() == 0 || !is_white_space(text.last()) {
        0
    } else {
        1 + trailing_white(text.drop_last())
    }
}

/// `text` without the white space at its start and at its end.
pub open spec fn trimmed(text: Seq<char>) -> Seq<char> {
    if leading_white(text) >= text.len() {
        Seq::empty()
    } else {
        text.subrange(leading_white(text), text.len() - trailing_white(text))
    }
}

/// The parts of `text` between its delimiters, each without the white space
/// around it, in their order; parts with nothing else in them are left out.
pub open spec fn pieces(text: Seq<char>, delimiters: Delimiters) -> Seq<Seq<char>>
    decreases text.len(),
{
    let cut = first_delimiter(text, delimiters);
    let head = trimmed(text.subrange(0, cut));
    let rest = if 0 <= cut < text.len() {
        pieces(text.subrange(cut + 1, text.len() as int), delimiters)
    } else {
        Seq::empty()
    };
    if head.len() > 0 {
        seq![head] + rest
    } else {
        rest
    }
}

/// Where no character before position `cut` is a delimiter, and `cut` is
/// the end of the text or the position of one, `cut` is the position of the
/// first delimiter.
pub proof fn lemma_first_delimiter(text: Seq<char>, delimiters: Delimiters, cut: int)
    requires
        0 <= cut <= text.len(),
        forall|i: int| 0 <= i < cut ==> !delimiters.delimits(#[trigger] text[i]),
        cut < text.len() ==> delimiters.delimits(text[cut]),
    ensures
        first_delimiter(text, delimiters) == cut,
    decreases text.len(),
{
    if cut > 0 {
        let rest = text.drop_first();
        lemma_first_delimiter(rest, delimiters, cut - 1);
    }
}

/// Where the first `n` characters are white space, and the text ends there
/// or goes on with another character, `n` is the number of white-space
/// characters at the start.
pub proof fn lemma_leading_white(text: Seq<char>, n: int)
    requires
        0 <= n <= text.len(),
        forall|i: int| 0 <= i < n ==> is_white_space(#[trigger] text[i]),
        n < text.len() ==> !is_white_space(text[n]),
    ensures
        leading_white(text) == n,
    decreases text.len(),
{
    if n > 0 {
        let rest = text.drop_first();
        assert forall|i: int| 0 <= i < n - 1 implies is_white_space(#[trigger] rest[i]) by {}
        lemma_leading_white(rest, n - 1);
    }
}

/// Where the last `n` characters are white space, and the text starts there
/// or has another character before them, `n` is the number of white-space
/// characters at the end.
pub proof fn lemma_trailing_white(text: Seq<char>, n: int)
    requires
        0 <= n <= text.len(),
        forall|i: int| text.len() - n <= i < text.len() ==> is_white_space(#[trigger] text[i]),
        n < text.len() ==> !is_white_space(text[text.len() - n - 1]),
    ensures
        trailing_white(text) == n,
    decreases text.len(),
{
    if n > 0 {
        let rest = text.drop_last();
        lemma_trailing_white(rest, n - 1);
    }
}

/// The characters of `text`.
fn chars_of(text: &str) -> (chars: Vec<char>)
    ensures
        chars@ == text@,
{
    let mut chars: Vec<char> = Vec::new();
    for c in iter: text.chars()
        invariant
            iter.seq() == text@,
            chars@ == iter.seq().subrange(0, iter.index() as int),
    {
        chars.push(c);
    }
    chars
}

/// Cuts `text` at its delimiters, takes the white space off each part, and
/// returns the parts that have something left, in their order.
pub fn split_trimmed(text: &str, delimiters: Delimiters) -> (parts: Vec<String>)
    ensures
        parts@.map_values(|part: String| part@) == pieces(text@, delimiters),
{
    let chars = chars_of(text);
    let n = chars.len();
    let ghost all = text@;
    let mut parts: Vec<String> = Vec::new();
    let mut start: usize = 0;
    assert(all.subrange(0, n as int) =~= all);
    loop
        invariant_except_break
            pieces(all, delimiters) == parts@.map_values(|part: String| part@) + pieces(
                all.subrange(start as int, n as int),
                delimiters,
            ),
        invariant
            chars@ == all,
            all == text@,
            n == all.len(),
            start <= n,
        ensures
            pieces(all, delimiters) == parts@.map_values(|part: String| part@),
        decreases n - start,
    {
        let ghost tail = all.subrange(start as int, n as int);
        let mut cut = start;
        while cut < n && !delimiters.is_delimiter(chars[cut])
            invariant
                chars@ == all,
                n == all.len(),
                start <= cut <= n,
                forall|i: int| start <= i < cut ==> !delimiters.delimits(#[trigger] all[i]),
            decreases n - cut,
        {
            cut += 1;
        }
        let ghost head = tail.subrange(0, cut - start);
        proof {
            lemma_first_delimiter(tail, delimiters, cut - start);
        }
        let mut from = start;
        while from < cut && chars[from].is_whitespace()
            invariant
                chars@ == all,
                n == all.len(),
                start <= from <= cut <= n,
                forall|i: int| start <= i < from ==> is_white_space(#[trigger] all[i]),
            decreases cut - from,
        {
            from += 1;
        }
        let mut to = cut;
        while to > from && chars[to - 1].is_whitespace()
            invariant
                chars@ == all,
                n == all.len(),
                from <= to <= cut <= n,
                forall|i: int| to <= i < cut ==> is_white_space(#[trigger] all[i]),
            decreases to - from,
        {
            to -= 1;
        }
        proof {
            lemma_leading_white(head, from - start);
            if from < cut {
                lemma_trailing_white(head, cut - to);
                assert(trimmed(head) =~= all.subrange(from as int, to as int));
            }
        }
        if from < to {
            let part = text.substring_char(from, to).to_owned();
            parts.push(part);
        }
        if cut >= n {
            break ;
        }
        proof {
            let next = all.subrange(cut + 1, n as int);
            assert(tail.subrange(cut - start + 1, tail.len() as int) =~= next);
        }
        start = cut + 1;
    }
    parts
}

/// A stretch of text that was read: a whole sentence, or the start of one
/// whose end has not been read yet.
pub enum Sentence {
    Complete(String),
    Incomplete(String),
}

impl Sentence {
    /// Whether the sentence is whole, and its text.
    pub open spec fn view(&self) -> (bool, Seq<char>) {
        match self {
            Sentence::Complete(text) => (true, text@),
            Sentence::Incomplete(text) => (false, text@),
        }
    }

    /// The text of the sentence.
    pub fn take(self) -> (text: String)
        ensures
            text@ == self@.1,
    {
        match self {
            Self::Complete(s) => s,
            Self::Incomplete(s) => s,
        }
    }
}

/// Whether the last character of `line` that is not white space ends a
/// sentence.
pub open spec fn ends_sentence(line: Seq<char>) -> bool {
    trimmed(line).len() > 0 && Delimiters::SentenceEnds.delimits(trimmed(line).last())
}

/// What a line holds: its sentences, and after them the start of a sentence
/// that the line leaves open, which is empty where the line ends with the
/// end of a sentence. A line with nothing in it is an open sentence itself.
pub open spec fn segments(line: Seq<char>) -> Seq<(bool, Seq<char>)> {
    let parts = pieces(line, Delimiters::SentenceEnds);
    if parts.len() == 0 {
        seq![(false, line)]
    } else if ends_sentence(line) {
        parts.map_values(|part: Seq<char>| (true, part)).push((false, Seq::empty()))
    } else {
        parts.drop_last().map_values(|part: Seq<char>| (true, part)).push((false, parts.last()))
    }
}

/// Whether the last character of `line` that is not white space ends a
/// sentence.
fn line_ends_sentence(line: &str) -> (ends: bool)
    ensures
        ends == ends_sentence(line@),
{
    let chars = chars_of(line);
    let ghost all = line@;
    let mut to = chars.len();
    while to > 0 && chars[to - 1].is_whitespace()
        invariant
            chars@ == all,
            to <= all.len(),
            forall|i: int| to <= i < all.len() ==> is_white_space(#[trigger] all[i]),
        decreases to,
    {
        to -= 1;
    }
    proof {
        lemma_trailing_white(all, all.len() - to);
        if to == 0 {
            lemma_leading_white(all, all.len() as int);
        } else {
            lemma_leading_at_most(all, to - 1);
        }
    }
    to > 0 && Delimiters::SentenceEnds.is_delimiter(chars[to - 1])
}

/// The white space at the start of a text ends before the first character
/// that is not white space.
pub proof fn lemma_leading_at_most(text: Seq<char>, at: int)
    requires
        0 <= at < text.len(),
        !is_white_space(text[at]),
    ensures
        0 <= leading_white(text) <= at,
    decreases text.len(),
{
    if at > 0 && is_white_space(text[0]) {
        let rest = text.drop_first();
        lemma_leading_at_most(rest, at - 1);
    }
}

/// Cuts a line into its sentences and the start of a sentence that it
/// leaves open.
pub fn segment_line(line_buffer: String) -> (found: Vec<Sentence>)
    ensures
        found@.map_values(|sentence: Sentence| sentence@) == segments(line_buffer@),
{
    let sentences = split_trimmed(line_buffer.as_str(), Delimiters::SentenceEnds);
    let ghost parts = pieces(line_buffer@, Delimiters::SentenceEnds);
    let ghost items = sentences@;
    let count = sentences.len();
    let mut found: Vec<Sentence> = Vec::new();
    if count == 0 {
        found.push(Sentence::Incomplete(line_buffer));
        return found;
    }
    let ends = line_ends_sentence(line_buffer.as_str());
    let mut n: usize = 0;
    for text in iter: sentences
        invariant
            iter.seq() == items,
            n == iter.index(),
            count == items.len(),
            items.map_values(|part: String| part@) == parts,
            found@.len() == n,
            forall|i: int|
                0 <= i < n ==> (#[trigger] found@[i])@ == (ends || i < count - 1, parts[i]),
    {
        if ends || n + 1 < count {
            found.push(Sentence::Complete(text));
        } else {
            found.push(Sentence::Incomplete(text));
        }
        n += 1;
    }
    if ends {
        found.push(Sentence::Incomplete(String::new()));
    }
    found
}

/// The sentences that were read and not yet handed out, in their order, and
/// whether the text has ended. An open sentence is the last one: the next
/// line goes on with it.
pub struct SentenceBuffer {
    sentences_buffer: VecDeque<Sentence>,
    done: bool,
}

impl SentenceBuffer {
    /// The buffered sentences, each with whether it is whole.
    pub closed spec fn view(&self) -> Seq<(bool, Seq<char>)> {
        self.sentences_buffer@.map_values(|sentence: Sentence| sentence@)
    }

    /// Whether the text has ended.
    pub closed spec fn is_done(&self) -> bool {
        self.done
    }

    /// A buffer for a text of which nothing was read yet: it holds an open
    /// sentence with nothing in it.
    pub fn new() -> (buffer: Self)
        ensures
            buffer@ == seq![(false, Seq::<char>::empty())],
            !buffer.is_done(),
    {
        let mut sentences_buffer = VecDeque::new();
        sentences_buffer.push_back(Sentence::Incomplete(String::new()));
        let buffer = SentenceBuffer { sentences_buffer, done: false };
        buffer
    }

    /// Whether the text has ended.
    pub fn done(&self) -> (done: bool)
        ensures
            done == self.is_done(),
    {
        self.done
    }

    /// Whether the next sentence is still open, so that another line has to
    /// be read before it can be handed out.
    pub fn wants_line(&self) -> (wanted: bool)
        ensures
            wanted == (!self.is_done() && self@.len() > 0 && !self@.first().0),
    {
        if self.done || self.sentences_buffer.len() == 0 {
            return false;
        }
        match &self.sentences_buffer[0] {
            Sentence::Incomplete(_) => true,
            Sentence::Complete(_) => false,
        }
    }

    /// The text that the next line is read behind: the open sentence at the
    /// end of the buffer, which leaves the buffer, and a blank; nothing where
    /// the buffer does not end with an open sentence.
    pub fn begin_read(&mut self) -> (line_buffer: String)
        ensures
            final(self).is_done() == old(self).is_done(),
            old(self)@.len() > 0 && !old(self)@.last().0 ==> {
                &&& final(self)@ == old(self)@.drop_last()
                &&& line_buffer@ == old(self)@.last().1.push(' ')
            },
            !(old(self)@.len() > 0 && !old(self)@.last().0) ==> {
                &&& final(self)@ == old(self)@
                &&& line_buffer@ == Seq::<char>::empty()
            },
    {
        let n = self.sentences_buffer.len();
        let open = n > 0 && match &self.sentences_buffer[n - 1] {
            Sentence::Incomplete(_) => true,
            Sentence::Complete(_) => false,
        };
        if open {
            match self.sentences_buffer.pop_back() {
                Some(sentence) => {
                    let mut s = sentence.take();
                    proof {
                        reveal_strlit(" ");
                    }
                    s.append(" ");
                    s
                },
                None => String::new(),
            }
        } else {
            String::new()
        }
    }

    /// Takes in what a read gave: a line, which is `line_buffer` from where
    /// `begin_read` left it, or the end of the text. Of a line, the sentences
    /// go to the end of the buffer; at the end of the text, what is left of
    /// the last sentence does, as a whole one.
    pub fn end_read(&mut self, line_buffer: String, got_line: bool)
        ensures
            final(self)@ == if got_line {
                old(self)@ + segments(line_buffer@)
            } else {
                old(self)@.push((true, line_buffer@))
            },
            final(self).is_done() == (old(self).is_done() || !got_line),
    {
        if got_line {
            let found = segment_line(line_buffer);
            let ghost items = found@;
            let ghost mut n: int = 0;
            for sentence in iter: found
                invariant
                    iter.seq() == items,
                    n == iter.index(),
                    self.done == old(self).done,
                    self@ == old(self)@ + items.map_values(|s: Sentence| s@).subrange(0, n),
            {
                let ghost held = self@;
                self.sentences_buffer.push_back(sentence);
                proof {
                    n = n + 1;
                    assert(self@ =~= held.push(items[n - 1]@));
                }
            }
        } else {
            self.sentences_buffer.push_back(Sentence::Complete(line_buffer));
            self.done = true;
        }
    }

    /// Hands out the first sentence of the buffer.
    pub fn next_sentence(&mut self) -> (text: Option<String>)
        ensures
            final(self).is_done() == old(self).is_done(),
            text is Some <==> old(self)@.len() > 0,
            text is Some ==> text->Some_0@ == old(self)@.first().1 && final(self)@ == old(
                self,
            )@.drop_first(),
            text is None ==> final(self)@ == old(self)@,
    {
        match self.sentences_buffer.pop_front() {
            Some(sentence) => {
                Some(sentence.take())
            },
            None => None,
        }
    }
}

/// A graph of words and the sentences they stand in. A node is a sentence if
/// its value is `true`, and a word if it is `false`.
pub type BookGraph<const C: usize> = FixedSizeHashGraphMap<String, bool, C>;

/// The graph after the words of `sentence` from the `i`-th on were added,
/// and whether the graph had room for them. Each word becomes a node and is
/// connected to the word behind it and to the sentence.
pub open spec fn with_words<const C: usize>(
    g: GraphView<Seq<char>, bool>,
    sentence: Seq<char>,
    words: Seq<Seq<char>>,
    i: int,
) -> (GraphView<Seq<char>, bool>, bool)
    decreases words.len() - i,
{
    if i < 0 || i >= words.len() {
        (g, true)
    } else {
        let connections = if i + 1 < words.len() {
            seq![(words[i + 1], false)]
        } else {
            Seq::empty()
        };
        let inserted = FixedSizeHashGraphImpl::<String, bool, C, DefaultHasher>::spec_insert(
            g,
            words[i],
            false,
            connections,
        );
        if !inserted.1 {
            inserted
        } else {
            with_words::<C>(
                FixedSizeHashGraphImpl::<String, bool, C, DefaultHasher>::spec_connect_to(
                    inserted.0,
                    words[i],
                    seq![sentence],
                ),
                sentence,
                words,
                i + 1,
            )
        }
    }
}

/// The graph after `sentence` and its words were added, and whether the
/// graph had room for them.
pub open spec fn with_sentence<const C: usize>(
    g: GraphView<Seq<char>, bool>,
    sentence: Seq<char>,
) -> (GraphView<Seq<char>, bool>, bool) {
    let inserted = FixedSizeHashGraphImpl::<String, bool, C, DefaultHasher>::spec_insert(
        g,
        sentence,
        true,
        Seq::empty(),
    );
    if !inserted.1 {
        inserted
    } else {
        with_words::<C>(inserted.0, sentence, pieces(sentence, Delimiters::WordBreaks), 0)
    }
}

/// Adds `sentence` to the graph as a node, and each of its words as a node
/// that is connected to the word behind it and to the sentence. Fails at
/// the first node that the graph has no room for; what was done until then
/// stays.
pub fn add_sentence<const C: usize>(graph: &mut BookGraph<C>, sentence: String) -> (result: Result<
    (),
    OutOfCapacityError,
>)
    requires
        old(graph).wf(),
    ensures
        final(graph).wf(),
        final(graph)@ == with_sentence::<C>(old(graph)@, sentence@).0,
        result is Ok <==> with_sentence::<C>(old(graph)@, sentence@).1,
        result is Err ==> result->Err_0.capacity == C,
{
    let ghost text = sentence@;
    match graph.insert((sentence.clone(), true), Vec::new()) {
        Ok(()) => {},
        Err(error) => {
            return Err(error);
        },
    }
    let words = split_trimmed(sentence.as_str(), Delimiters::WordBreaks);
    let ghost parts = pieces(text, Delimiters::WordBreaks);
    let mut i: usize = 0;
    while i < words.len()
        invariant
            i <= words.len(),
            text == sentence@,
            words@.map_values(|part: String| part@) == parts,
            graph.wf(),
            with_sentence::<C>(old(graph)@, text) == with_words::<C>(graph@, text, parts, i as int),
        decreases words.len() - i,
    {
        let mut connections: Vec<(String, bool)> = Vec::new();
        if i + 1 < words.len() {
            connections.push((words[i + 1].clone(), false));
        }
        proof {
            let expected = if i + 1 < parts.len() {
                seq![(parts[i + 1], false)]
            } else {
                Seq::empty()
            };
            assert(FixedSizeHashGraphImpl::<String, bool, C, DefaultHasher>::pairs_view(
                connections@,
            ) =~= expected);
        }
        match graph.insert((words[i].clone(), false), connections) {
            Ok(()) => {},
            Err(error) => {
                return Err(error);
            },
        }
        let mut targets: Vec<&String> = Vec::new();
        targets.push(&sentence);
        proof {
            assert(FixedSizeHashGraphImpl::<String, bool, C, DefaultHasher>::keys_view(targets@)
                =~= seq![text]);
        }
        graph.connect_to(&words[i], targets);
        i += 1;
    }
    Ok(())
}

} // verus!
