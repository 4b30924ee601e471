//! Numbers for identifiers: each distinct text gets a number of its own, by
//! which the maps of the journey search know it.

use crate::text::same_text;
use vstd::prelude::*;
use vstd::string::StringSliceAdditionalSpecFns;
use vstd::utf8::encode_utf8;

verus! {

/// The number of rows into which the texts are sorted to be found quickly.
pub const ROWS: usize = 4096;

/// The row of a text that is made of `bytes`.
pub open spec fn row_of_bytes(bytes: Seq<u8>) -> nat
    decreases bytes.len(),
{
    if bytes.len() == 0 {
        0
    } else {
        ((row_of_bytes(bytes.drop_last()) * 31 + bytes.last() as nat) % (ROWS as nat)) as nat
    }
}

/// The row of `text`.
pub open spec fn row_of(text: Seq<char>) -> nat {
    row_of_bytes(encode_utf8(text))
}

/// No text stands twice in `names`.
pub open spec fn distinct(names: Seq<Seq<char>>) -> bool {
    forall|i: int, j: int| 0 <= i < j < names.len() ==> names[i] != names[j]
}

/// The place of the first `text` in `names` at or after `from`; the length of
/// `names` if there is none.
pub open spec fn place_from(names: Seq<Seq<char>>, text: Seq<char>, from: int) -> int
    decreases names.len() - from,
{
    if from < 0 || from >= names.len() {
        names.len() as int
    } else if names[from] == text {
        from
    } else {
        place_from(names, text, from + 1)
    }
}

/// The number of `text` in `names`: its place, which is the length of
/// `names` if it has none.
pub open spec fn place_of(names: Seq<Seq<char>>, text: Seq<char>) -> int {
    place_from(names, text, 0)
}

/// `names` with a number for `text`: the same if it has one, and with `text`
/// at the end if not.
pub open spec fn with_name(names: Seq<Seq<char>>, text: Seq<char>) -> Seq<Seq<char>> {
    if names.contains(text) {
        names
    } else {
        names.push(text)
    }
}

/// `names` with a number for each of `texts`, given in their order.
pub open spec fn with_names(names: Seq<Seq<char>>, texts: Seq<Seq<char>>) -> Seq<Seq<char>>
    decreases texts.len(),
{
    if texts.len() == 0 {
        names
    } else {
        with_name(with_names(names, texts.drop_last()), texts.last())
    }
}

/// The place of a text is where the text stands, if it stands anywhere.
pub proof fn lemma_place_from(names: Seq<Seq<char>>, text: Seq<char>, from: int)
    requires
        0 <= from <= names.len(),
    ensures
        from <= place_from(names, text, from) <= names.len(),
        place_from(names, text, from) < names.len() ==> names[place_from(names, text, from)]
            == text,
        forall|i: int| from <= i < place_from(names, text, from) ==> names[i] != text,
    decreases names.len() - from,
{
    if from < names.len() && names[from] != text {
        lemma_place_from(names, text, from + 1);
    }
}

/// A text has a place below the length exactly if it stands in the names,
/// and then it stands at its place.
pub proof fn lemma_place_of(names: Seq<Seq<char>>, text: Seq<char>)
    ensures
        0 <= place_of(names, text) <= names.len(),
        names.contains(text) <==> place_of(names, text) < names.len(),
        names.contains(text) ==> names[place_of(names, text)] == text,
{
    lemma_place_from(names, text, 0);
    if names.contains(text) {
        let i = choose|i: int| 0 <= i < names.len() && names[i] == text;
        assert(!(i < place_of(names, text)));
    }
}

/// Equal numbers mean equal texts: two texts that stand in the names at the
/// same place are one text.
pub proof fn lemma_numbers_tell_texts_apart(names: Seq<Seq<char>>, a: Seq<char>, b: Seq<char>)
    requires
        names.contains(a),
        names.contains(b),
        place_of(names, a) == place_of(names, b),
    ensures
        a == b,
{
    lemma_place_of(names, a);
    lemma_place_of(names, b);
}

/// A text keeps its number when another text gets one, and the new text
/// has a number afterwards.
pub proof fn lemma_with_name(names: Seq<Seq<char>>, text: Seq<char>, other: Seq<char>)
    ensures
        with_name(names, other).contains(other),
        names.contains(text) ==> with_name(names, other).contains(text) && place_of(
            with_name(names, other),
            text,
        ) == place_of(names, text),
        distinct(names) ==> distinct(with_name(names, other)),
        forall|i: int| 0 <= i < names.len() ==> with_name(names, other)[i] == names[i],
        names.len() <= with_name(names, other).len(),
{
    let more = with_name(names, other);
    if !names.contains(other) {
        assert(more[names.len() as int] == other);
        if distinct(names) {
            assert forall|i: int, j: int| 0 <= i < j < more.len() implies more[i] != more[j] by {
                if j == names.len() {
                    assert(names[i] == more[i]);
                    assert(names.contains(names[i]));
                }
            }
        }
    }
    if names.contains(text) {
        let i = choose|i: int| 0 <= i < names.len() && names[i] == text;
        assert(more[i] == text);
        lemma_place_from(names, text, 0);
        lemma_place_from(more, text, 0);
        let p = place_of(names, text);
        let q = place_of(more, text);
        assert(!(i < p));
        assert(!(i < q));
        assert(more[p] == text);
        assert(names[q] == more[q]);
    }
}

/// Texts keep their numbers when more texts get one, and each of the new
/// texts has a number afterwards.
pub proof fn lemma_with_names(names: Seq<Seq<char>>, texts: Seq<Seq<char>>, text: Seq<char>)
    ensures
        names.contains(text) ==> with_names(names, texts).contains(text) && place_of(
            with_names(names, texts),
            text,
        ) == place_of(names, text),
        texts.contains(text) ==> with_names(names, texts).contains(text),
        distinct(names) ==> distinct(with_names(names, texts)),
    decreases texts.len(),
{
    if texts.len() > 0 {
        let head = texts.drop_last();
        lemma_with_names(names, head, text);
        lemma_with_name(with_names(names, head), text, texts.last());
        if texts.contains(text) && text != texts.last() {
            let i = choose|i: int| 0 <= i < texts.len() && texts[i] == text;
            assert(head[i] == text);
        }
    }
}

/// After texts were given numbers, the texts that have a number are those
/// that had one and those that were given one, and no others.
pub proof fn lemma_with_names_holds(names: Seq<Seq<char>>, texts: Seq<Seq<char>>, text: Seq<char>)
    ensures
        with_names(names, texts).contains(text) <==> names.contains(text) || texts.contains(text),
    decreases texts.len(),
{
    lemma_with_names(names, texts, text);
    if texts.len() > 0 {
        let head = texts.drop_last();
        let before = with_names(names, head);
        lemma_with_names_holds(names, head, text);
        if with_names(names, texts).contains(text) && !before.contains(text) {
            let after = with_names(names, texts);
            let i = choose|i: int| 0 <= i < after.len() && after[i] == text;
            if i < before.len() {
                assert(before[i] == text);
            }
            assert(text == texts.last());
            assert(texts[texts.len() - 1] == text);
        }
        if head.contains(text) {
            let i = choose|i: int| 0 <= i < head.len() && head[i] == text;
            assert(texts[i] == text);
        }
    }
}

/// The numbers of identifiers. Each text that has been given a number keeps
/// it, and no two texts share one.
pub struct Names {
    texts: Vec<String>,
    rows: Vec<Vec<usize>>,
}

impl View for Names {
    type V = Seq<Seq<char>>;

    closed spec fn view(&self) -> Seq<Seq<char>> {
        Seq::new(self.texts@.len(), |i: int| self.texts@[i]@)
    }
}

/// Finds the row of `text`.
fn row(text: &str) -> (r: usize)
    ensures
        r == row_of(text@),
        r < ROWS,
{
    let bytes = text.as_bytes();
    let mut r: usize = 0;
    let mut k: usize = 0;
    while k < bytes.len()
        invariant
            k <= bytes.len(),
            r < ROWS,
            r == row_of_bytes(bytes@.take(k as int)),
        decreases bytes.len() - k,
    {
        proof {
            assert(bytes@.take(k + 1).drop_last() =~= bytes@.take(k as int));
        }
        r = (r * 31 + bytes[k] as usize) % ROWS;
        k += 1;
    }
    proof {
        assert(bytes@.take(k as int) =~= bytes@);
    }
    r
}

impl Names {
    /// The entry at place `j` of row `r` is the number of a text of that row.
    spec fn sound(self, r: int, j: int) -> bool {
        let n = self.rows@[r]@[j];
        n < self.texts@.len() && row_of(self@[n as int]) == r
    }

    /// The number `n` stands at place `j` of the row of its text.
    spec fn listed(self, n: int, j: int) -> bool {
        let r = row_of(self@[n]) as int;
        0 <= j < self.rows@[r]@.len() && self.rows@[r]@[j] == n
    }

    /// The number `n` stands in the row of its text.
    spec fn placed(self, n: int) -> bool {
        exists|j: int| #[trigger] self.listed(n, j)
    }

    #[verifier::type_invariant]
    spec fn in_order(self) -> bool {
        &&& distinct(self@)
        &&& (self.rows@.len() == ROWS || (self.rows@.len() == 0 && self.texts@.len() == 0))
        &&& forall|r: int, j: int|
            0 <= r < self.rows@.len() && 0 <= j < self.rows@[r]@.len() ==> #[trigger] self.sound(
                r,
                j,
            )
        &&& forall|n: int| 0 <= n < self.texts@.len() ==> #[trigger] self.placed(n)
    }

    /// Starts with no numbers given.
    pub fn new() -> (names: Names)
        ensures
            names@ == Seq::<Seq<char>>::empty(),
    {
        let names = Names { texts: Vec::new(), rows: Vec::new() };
        proof {
            assert(names@ =~= Seq::<Seq<char>>::empty());
        }
        names
    }

    /// Tells how many texts have a number.
    pub fn len(&self) -> (n: usize)
        ensures
            n == self@.len(),
    {
        self.texts.len()
    }

    /// Gives the number of `text`, if it has one.
    pub fn find(&self, text: &str) -> (r: Option<u64>)
        ensures
            match r {
                Some(n) => self@.contains(text@) && n == place_of(self@, text@),
                None => !self@.contains(text@),
            },
    {
        proof {
            use_type_invariant(self);
        }
        if self.rows.len() == 0 {
            return None;
        }
        let r = row(text);
        let mut j: usize = 0;
        while j < self.rows[r].len()
            invariant
                self.in_order(),
                self.rows@.len() == ROWS,
                r == row_of(text@),
                r < ROWS,
                j <= self.rows@[r as int]@.len(),
                forall|i: int| 0 <= i < j ==> self@[self.rows@[r as int]@[i] as int] != text@,
            decreases self.rows@[r as int]@.len() - j,
        {
            let n = self.rows[r][j];
            assert(self.sound(r as int, j as int));
            assert(self@[n as int] == self.texts@[n as int]@);
            if same_text(self.texts[n].as_str(), text) {
                proof {
                    lemma_place_of(self@, text@);
                }
                return Some(n as u64);
            }
            j += 1;
        }
        proof {
            if self@.contains(text@) {
                let n = choose|n: int| 0 <= n < self@.len() && self@[n] == text@;
                assert(self.placed(n));
                let i = choose|i: int| self.listed(n, i);
                assert(self.listed(n, i));
                assert(self.rows@[r as int]@[i] == n);
                assert(false);
            }
        }
        None
    }

    /// Tells whether `text` has a number.
    pub fn contains(&self, text: &str) -> (b: bool)
        ensures
            b == self@.contains(text@),
    {
        self.find(text).is_some()
    }

    /// Gives the text that has the number `n`, if a text has it.
    pub fn text_of(&self, n: u64) -> (r: Option<&str>)
        ensures
            n < self@.len() ==> r is Some && r->0@ == self@[n as int],
            n >= self@.len() ==> r is None,
    {
        if n < self.texts.len() as u64 {
            let text = self.texts[n as usize].as_str();
            assert(self@[n as int] == self.texts@[n as int]@);
            Some(text)
        } else {
            None
        }
    }

    /// Gives the number of `text`, and gives `text` the next free number
    /// first if it has none yet.
    pub fn number(&mut self, text: &str) -> (n: u64)
        ensures
            final(self)@ == with_name(old(self)@, text@),
            n == place_of(final(self)@, text@),
            n < final(self)@.len(),
    {
        let ghost before = self@;
        proof {
            lemma_with_name(before, text@, text@);
            lemma_place_of(with_name(before, text@), text@);
        }
        match self.find(text) {
            Some(n) => {
                return n;
            },
            None => {},
        }
        let mut taken = Names::new();
        std::mem::swap(self, &mut taken);
        proof {
            use_type_invariant(&taken);
        }
        let ghost was = taken;
        let Names { texts, rows } = taken;
        let mut texts = texts;
        let mut rows = rows;
        if rows.len() == 0 {
            let mut k: usize = 0;
            while k < ROWS
                invariant
                    k <= ROWS,
                    rows@.len() == k,
                    forall|r: int| 0 <= r < k ==> (#[trigger] rows@[r])@.len() == 0,
                decreases ROWS - k,
            {
                rows.push(Vec::new());
                k += 1;
            }
        }
        let ghost rows_before = rows@;
        let r = row(text);
        let n = texts.len();
        texts.push(text.to_owned());
        rows[r].push(n);
        let ghost next = Names { texts, rows };
        proof {
            assert(next@ =~= before.push(text@));
            assert(next@[n as int] == text@);
            assert forall|i: int, j: int| 0 <= i < j < next@.len() implies next@[i] != next@[j] by {
                if j == n {
                    assert(before[i] == next@[i]);
                    assert(before.contains(before[i]));
                } else {
                    assert(before[i] != before[j]);
                }
            }
            assert forall|q: int, j: int|
                0 <= q < next.rows@.len() && 0 <= j < next.rows@[q]@.len() implies #[trigger] next.sound(
                q,
                j,
            ) by {
                if q == r && j == rows_before[q]@.len() {
                } else {
                    assert(next.rows@[q]@[j] == rows_before[q]@[j]);
                    if was.rows@.len() == ROWS {
                        assert(was.sound(q, j));
                        assert(next@[rows_before[q]@[j] as int] == was@[rows_before[q]@[j] as int]);
                    }
                }
            }
            assert forall|m: int| 0 <= m < next.texts@.len() implies #[trigger] next.placed(m) by {
                if m == n {
                    assert(next.listed(m, rows_before[r as int]@.len() as int));
                } else {
                    assert(next@[m] == was@[m]);
                    assert(was.placed(m));
                    let j = choose|j: int| was.listed(m, j);
                    assert(was.listed(m, j));
                    assert(next.listed(m, j));
                }
            }
            let p = place_of(next@, text@);
            lemma_place_of(next@, text@);
            if p < before.len() {
                assert(before[p] == text@);
                assert(before.contains(text@));
            }
        }
        *self = Names { texts, rows };
        n as u64
    }
}

} // verus!
