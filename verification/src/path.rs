//! Paths into a document.

use vstd::prelude::*;
use crate::text::{joined, lemma_joined_split, lemma_split_joined, split, split_text, texts};

verus! {

/// The mathematical model of a [`PathElement`].
pub enum Segment {
    /// Every element of the array at this place.
    Flatten,
    /// The element of an array at a position.
    Index(nat),
    /// The value of an object under a key.
    Key(Seq<char>),
}

/// One step of a path into a document.
#[derive(Debug, PartialEq, Eq)]
pub enum PathElement {
    /// Given an array, stands for each of its elements.
    Flatten,
    /// A position in an array.
    Index(usize),
    /// A key of an object.
    Key(String),
}

impl View for PathElement {
    type V = Segment;

    open spec fn view(&self) -> Segment {
        match self {
            PathElement::Flatten => Segment::Flatten,
            PathElement::Index(i) => Segment::Index(*i as nat),
            PathElement::Key(k) => Segment::Key(k@),
        }
    }
}

impl Clone for PathElement {
    fn clone(&self) -> (r: PathElement)
        ensures
            r == *self,
    {
        match self {
            PathElement::Flatten => PathElement::Flatten,
            PathElement::Index(i) => PathElement::Index(*i),
            PathElement::Key(k) => PathElement::Key(k.clone()),
        }
    }
}

/// A path into a document: the steps from the root, in order.
#[derive(Debug, PartialEq, Eq)]
pub struct Path(pub Vec<PathElement>);

/// The models of a sequence of path elements, in order.
pub open spec fn view_elements(elements: Seq<PathElement>) -> Seq<Segment> {
    Seq::new(elements.len(), |i: int| elements[i]@)
}

impl View for Path {
    type V = Seq<Segment>;

    open spec fn view(&self) -> Seq<Segment> {
        view_elements(self.0@)
    }
}

impl Clone for Path {
    fn clone(&self) -> (r: Path)
        ensures
            r.0@ == self.0@,
            r@ == self@,
    {
        Path(copy_elements(&self.0, self.0.len()))
    }
}

impl Default for Path {
    /// The path of no steps.
    fn default() -> (r: Path)
        ensures
            r@ == Seq::<Segment>::empty(),
    {
        Path::empty()
    }
}

/// A copy of the first `count` elements.
fn copy_elements(elements: &Vec<PathElement>, count: usize) -> (r: Vec<PathElement>)
    requires
        count <= elements.len(),
    ensures
        r@ == elements@.take(count as int),
        count == elements.len() ==> r@ == elements@,
{
    let mut out: Vec<PathElement> = Vec::new();
    let mut i: usize = 0;
    while i < count
        invariant
            i <= count <= elements.len(),
            out@ == elements@.take(i as int),
        decreases count - i,
    {
        out.push(elements[i].clone());
        assert(elements@.take(i as int).push(elements@[i as int]) =~= elements@.take(i + 1));
        i += 1;
    }
    assert(elements@.take(elements@.len() as int) =~= elements@);
    out
}

impl Path {
    /// The path of no steps, which addresses the root.
    pub fn empty() -> (r: Path)
        ensures
            r@ == Seq::<Segment>::empty(),
    {
        let r = Path(Vec::new());
        assert(r@ =~= Seq::<Segment>::empty());
        r
    }

    /// Whether the path has no steps.
    pub fn is_empty(&self) -> (r: bool)
        ensures
            r == (self@.len() == 0),
    {
        self.0.len() == 0
    }

    /// The number of steps.
    pub fn len(&self) -> (r: usize)
        ensures
            r == self@.len(),
    {
        self.0.len()
    }

    /// All steps but the last, or `None` for the empty path.
    pub fn parent(&self) -> (r: Option<Path>)
        ensures
            self@.len() == 0 ==> r is None,
            self@.len() > 0 ==> (r matches Some(p) && p.0@ == self.0@.drop_last() && p@
                == self@.drop_last()),
    {
        if self.0.len() == 0 {
            None
        } else {
            let p = Path(copy_elements(&self.0, self.0.len() - 1));
            assert(p@ =~= self@.drop_last());
            Some(p)
        }
    }

    /// The steps of this path followed by those of `other`.
    pub fn join(&self, other: &Path) -> (r: Path)
        ensures
            r.0@ == self.0@ + other.0@,
            r@ == self@ + other@,
    {
        let mut out = copy_elements(&self.0, self.0.len());
        let mut i: usize = 0;
        while i < other.0.len()
            invariant
                i <= other.0.len(),
                out@ == self.0@ + other.0@.take(i as int),
            decreases other.0.len() - i,
        {
            out.push(other.0[i].clone());
            assert((self.0@ + other.0@.take(i as int)).push(other.0@[i as int]) =~= self.0@
                + other.0@.take(i + 1));
            i += 1;
        }
        assert(other.0@.take(other.0@.len() as int) =~= other.0@);
        assert(view_elements(out@) =~= self@ + other@);
        Path(out)
    }
}

/// Whether `c` is one of the ten decimal digits.
pub open spec fn is_digit(c: char) -> bool {
    48 <= c as u32 <= 57
}

/// The value of a decimal digit.
pub open spec fn digit_value(c: char) -> nat {
    if is_digit(c) {
        (c as u32 - 48) as nat
    } else {
        0
    }
}

/// The number that a text of decimal digits writes.
pub open spec fn decimal_value(text: Seq<char>) -> nat
    decreases text.len(),
{
    if text.len() == 0 {
        0
    } else {
        decimal_value(text.drop_last()) * 10 + digit_value(text.last())
    }
}

/// Whether `text` writes an index: one decimal digit or more, of a number
/// that `usize` holds.
pub open spec fn is_index_text(text: Seq<char>) -> bool {
    &&& text.len() > 0
    &&& forall|i: int| 0 <= i < text.len() ==> is_digit(#[trigger] text[i])
    &&& decimal_value(text) <= usize::MAX
}

/// The step that one segment of a path's text stands for: an index where it
/// writes one, `Flatten` where it is `@`, else a key.
pub open spec fn segment_of(text: Seq<char>) -> Segment {
    if is_index_text(text) {
        Segment::Index(decimal_value(text))
    } else if text == seq!['@'] {
        Segment::Flatten
    } else {
        Segment::Key(text)
    }
}

/// The steps that each of `segments` stands for.
pub open spec fn segments_of(segments: Seq<Seq<char>>) -> Seq<Segment> {
    Seq::new(segments.len(), |i: int| segment_of(segments[i]))
}

/// The path that `text` writes: its segments between slashes, each read as a
/// step.
pub open spec fn parsed(text: Seq<char>) -> Seq<Segment> {
    segments_of(split(text, '/'))
}

/// The value of a text is at least the value of each of its prefixes.
pub proof fn lemma_decimal_value_prefix(text: Seq<char>, count: int)
    requires
        0 <= count <= text.len(),
    ensures
        decimal_value(text.take(count)) <= decimal_value(text),
    decreases text.len(),
{
    if count == text.len() {
        assert(text.take(count) =~= text);
    } else {
        lemma_decimal_value_prefix(text.drop_last(), count);
        assert(text.drop_last().take(count) =~= text.take(count));
    }
}

impl PathElement {
    /// Whether `text` is the text of `Flatten`, the one character `@`.
    pub fn is_flatten_text(text: &str) -> (r: bool)
        ensures
            r == (text@ == seq!['@']),
    {
        let matched = text.unicode_len() == 1 && text.get_char(0) == '@';
        assert(matched == (text@ =~= seq!['@']));
        matched
    }

    /// The index that `text` writes, if it writes one.
    pub fn index_of_text(text: &str) -> (r: Option<usize>)
        ensures
            r == if is_index_text(text@) {
                Some(decimal_value(text@) as usize)
            } else {
                None
            },
    {
        let mut value: usize = 0;
        let mut seen = false;
        for c in it: text.chars()
            invariant
                it.seq() == text@,
                seen == (it.index() > 0),
                value == decimal_value(text@.take(it.index() as int)),
                forall|i: int| 0 <= i < it.index() ==> is_digit(#[trigger] text@[i]),
        {
            let ghost count = it.index() as int;
            let code = c as u32;
            assert(text@.take(count + 1).drop_last() =~= text@.take(count));
            assert(text@.take(count + 1).last() == c);
            if code < 48 || code > 57 {
                return None;
            }
            let digit = (code - 48) as usize;
            proof {
                lemma_decimal_value_prefix(text@, count + 1);
            }
            if value > (usize::MAX - digit) / 10 {
                return None;
            }
            value = value * 10 + digit;
            seen = true;
        }
        assert(text@.take(text@.len() as int) =~= text@);
        if seen {
            Some(value)
        } else {
            None
        }
    }

    /// The step that one segment of a path's text stands for (see
    /// [`segment_of`]).
    pub fn from_text(text: &str) -> (r: PathElement)
        ensures
            r@ == segment_of(text@),
    {
        match PathElement::index_of_text(text) {
            Some(index) => PathElement::Index(index),
            None => if PathElement::is_flatten_text(text) {
                PathElement::Flatten
            } else {
                PathElement::Key(String::from_str(text))
            },
        }
    }
}

/// The character that writes a digit.
pub open spec fn digit_char(digit: nat) -> char {
    if digit == 0 {
        '0'
    } else if digit == 1 {
        '1'
    } else if digit == 2 {
        '2'
    } else if digit == 3 {
        '3'
    } else if digit == 4 {
        '4'
    } else if digit == 5 {
        '5'
    } else if digit == 6 {
        '6'
    } else if digit == 7 {
        '7'
    } else if digit == 8 {
        '8'
    } else {
        '9'
    }
}

/// The decimal digits that write a number, without leading zeros.
pub open spec fn decimal(number: nat) -> Seq<char>
    decreases number,
{
    if number < 10 {
        seq![digit_char(number)]
    } else {
        decimal(number / 10).push(digit_char(number % 10))
    }
}

/// The text that writes one step: the digits of an index, the key itself,
/// `@` for `Flatten`.
pub open spec fn text_of(step: Segment) -> Seq<char> {
    match step {
        Segment::Flatten => seq!['@'],
        Segment::Index(index) => decimal(index),
        Segment::Key(key) => key,
    }
}

/// The texts that write each of `steps`.
pub open spec fn texts_of(steps: Seq<Segment>) -> Seq<Seq<char>> {
    Seq::new(steps.len(), |i: int| text_of(steps[i]))
}

/// The text that writes a path: the texts of its steps with a slash between
/// each two of them.
pub open spec fn rendered(steps: Seq<Segment>) -> Seq<char> {
    joined(texts_of(steps), '/')
}

/// The text of one decimal digit.
fn digit_text(digit: usize) -> (r: &'static str)
    requires
        digit < 10,
    ensures
        r@ == seq![digit_char(digit as nat)],
{
    proof {
        reveal_strlit("0");
        reveal_strlit("1");
        reveal_strlit("2");
        reveal_strlit("3");
        reveal_strlit("4");
        reveal_strlit("5");
        reveal_strlit("6");
        reveal_strlit("7");
        reveal_strlit("8");
        reveal_strlit("9");
    }
    let r = match digit {
        0 => "0",
        1 => "1",
        2 => "2",
        3 => "3",
        4 => "4",
        5 => "5",
        6 => "6",
        7 => "7",
        8 => "8",
        _ => "9",
    };
    assert(r@ =~= seq![digit_char(digit as nat)]);
    r
}

/// The decimal digits that write `number`.
fn decimal_text(number: usize) -> (r: String)
    ensures
        r@ == decimal(number as nat),
    decreases number,
{
    if number < 10 {
        String::from_str(digit_text(number))
    } else {
        let mut text = decimal_text(number / 10);
        text.append(digit_text(number % 10));
        assert(text@ =~= decimal(number as nat));
        text
    }
}

impl Path {
    /// The path of the given segments, each read as a step (see
    /// [`segment_of`]).
    pub fn from_slice(segments: &[&str]) -> (r: Path)
        ensures
            r@ == segments_of(texts(segments@)),
    {
        let mut out: Vec<PathElement> = Vec::new();
        let mut i: usize = 0;
        while i < segments.len()
            invariant
                i <= segments@.len(),
                view_elements(out@) == segments_of(texts(segments@).take(i as int)),
            decreases segments.len() - i,
        {
            let ghost before = out@;
            out.push(PathElement::from_text(segments[i]));
            proof {
                let done = texts(segments@).take(i as int);
                let next = texts(segments@).take(i + 1);
                assert(view_elements(before).len() == segments_of(done).len());
                assert forall|k: int| 0 <= k < out@.len() implies view_elements(out@)[k]
                    == segments_of(next)[k] by {
                    if k < before.len() {
                        assert(view_elements(before)[k] == segments_of(done)[k]);
                    }
                }
                assert(view_elements(out@) =~= segments_of(next));
            }
            i += 1;
        }
        assert(texts(segments@).take(segments@.len() as int) =~= texts(segments@));
        Path(out)
    }

    /// The path that `text` writes: its segments between slashes, each read
    /// as a step (see [`parsed`]).
    pub fn parse(text: &str) -> (r: Path)
        ensures
            r@ == parsed(text@),
    {
        let segments = split_text(text, '/');
        Path::from_slice(segments.as_slice())
    }

    /// The text that writes this path (see [`rendered`]): what [`Path::parse`]
    /// reads back, where no key holds a slash or could be read as another
    /// step.
    pub fn to_string(&self) -> (r: String)
        ensures
            r@ == rendered(self@),
    {
        let ghost parts = texts_of(self@);
        let mut out = String::new();
        let mut i: usize = 0;
        proof {
            reveal_strlit("/");
            reveal_strlit("@");
            assert(parts.take(0) =~= Seq::<Seq<char>>::empty());
        }
        while i < self.0.len()
            invariant
                i <= self.0@.len(),
                parts == texts_of(self@),
                "/"@ == seq!['/'],
                "@"@ == seq!['@'],
                out@ == joined(parts.take(i as int), '/'),
            decreases self.0.len() - i,
        {
            let ghost before = out@;
            if i > 0 {
                out.append("/");
            }
            match &self.0[i] {
                PathElement::Flatten => {
                    out.append("@");
                },
                PathElement::Index(index) => {
                    let digits = decimal_text(*index);
                    out.append(digits.as_str());
                },
                PathElement::Key(key) => {
                    out.append(key.as_str());
                },
            }
            proof {
                let next = parts.take(i + 1);
                assert(next.drop_last() =~= parts.take(i as int));
                assert(next.last() == text_of(self@[i as int]));
                if i == 0 {
                    assert(out@ =~= next[0]);
                } else {
                    assert(out@ =~= before + seq!['/'] + next.last());
                }
            }
            i += 1;
        }
        assert(parts.take(self.0@.len() as int) =~= parts);
        out
    }
}

impl<'a> From<&'a str> for Path {
    /// The path that `text` writes (see [`Path::parse`]).
    fn from(text: &'a str) -> (r: Path)
        ensures
            r@ == parsed(text@),
    {
        Path::parse(text)
    }
}

impl<'a> vstd::std_specs::convert::FromSpecImpl<&'a str> for Path {
    open spec fn obeys_from_spec() -> bool {
        false
    }

    open spec fn from_spec(text: &'a str) -> Path {
        arbitrary()
    }
}

impl Path {
    /// The steps, from the root on.
    pub fn iter(&self) -> (r: core::slice::Iter<'_, PathElement>)
        ensures
            vstd::std_specs::slice::into_iter_elts(r) == self.0@,
            vstd::std_specs::iter::IteratorSpec::decrease(&r) is Some,
            vstd::std_specs::iter::IteratorSpec::initial_value_relation(&r, &r),
    {
        self.0.iter()
    }
}

/// Whether a step is written by a text that reads back as the same step:
/// every index and `Flatten` are; a key is, unless it holds a slash, is the
/// text `@`, or writes an index.
pub open spec fn reads_back(step: Segment) -> bool {
    match step {
        Segment::Flatten => true,
        Segment::Index(index) => index <= usize::MAX,
        Segment::Key(key) => !key.contains('/') && segment_of(key) == step,
    }
}

/// The digits of a number write that number.
pub proof fn lemma_decimal(number: nat)
    ensures
        decimal(number).len() > 0,
        forall|i: int| 0 <= i < decimal(number).len() ==> is_digit(#[trigger] decimal(number)[i]),
        decimal_value(decimal(number)) == number,
    decreases number,
{
    let digits = decimal(number);
    if number < 10 {
        assert(digits.drop_last() =~= Seq::<char>::empty());
        assert(decimal_value(digits) == decimal_value(digits.drop_last()) * 10 + digit_value(
            digits.last(),
        ));
    } else {
        lemma_decimal(number / 10);
        assert(digits.drop_last() =~= decimal(number / 10));
        assert(decimal_value(digits) == decimal_value(digits.drop_last()) * 10 + digit_value(
            digits.last(),
        ));
    }
}

/// Reading the text of a path gives the path back, where the path has a
/// step and each step reads back as itself (see [`reads_back`]).
pub proof fn lemma_parse_rendered(steps: Seq<Segment>)
    requires
        steps.len() > 0,
        forall|i: int| 0 <= i < steps.len() ==> reads_back(#[trigger] steps[i]),
    ensures
        parsed(rendered(steps)) == steps,
{
    let parts = texts_of(steps);
    assert forall|i: int| 0 <= i < parts.len() implies !(#[trigger] parts[i]).contains('/')
        && segment_of(parts[i]) == steps[i] by {
        let step = steps[i];
        assert(reads_back(step));
        match step {
            Segment::Flatten => {
                assert(!seq!['@'].contains('/'));
                assert(!is_index_text(seq!['@'])) by {
                    assert(!is_digit(seq!['@'][0]));
                }
            },
            Segment::Index(index) => {
                lemma_decimal(index);
                if decimal(index).contains('/') {
                    let k = choose|k: int| 0 <= k < decimal(index).len() && decimal(index)[k] == '/';
                    assert(is_digit(decimal(index)[k]));
                }
            },
            Segment::Key(key) => {},
        }
    }
    lemma_split_joined(parts, '/');
    assert(segments_of(parts) =~= steps);
}

/// Writing the path that a text was read as gives the text back, where each
/// segment of the text is what its step is written as: that is, where no
/// index is written with leading zeros.
pub proof fn lemma_render_parsed(text: Seq<char>)
    requires
        forall|i: int|
            0 <= i < split(text, '/').len() ==> text_of(segment_of(#[trigger] split(text, '/')[i]))
                == split(text, '/')[i],
    ensures
        rendered(parsed(text)) == text,
{
    assert(texts_of(parsed(text)) =~= split(text, '/'));
    lemma_joined_split(text, '/');
}

} // verus!
