//! The error collector: an ordered-by-position list of diagnostics that
//! supports appending, a stable sort by (line, column, message), and
//! collapsing to at most one diagnostic per source line.

use vstd::prelude::*;
use vstd::string::*;
use crate::decimal::{dec_str, u64_to_string};
use crate::position::{pos_text, Position};

verus! {

/// Ghost form of one diagnostic: its resolved position and message text.
pub struct ErrS {
    pub pos: Position,
    pub msg: Seq<char>,
}

/// Lexicographic order on character sequences, by code point.
pub open spec fn seq_char_le(a: Seq<char>, b: Seq<char>) -> bool
    decreases a.len(),
{
    if a.len() == 0 {
        true
    } else if b.len() == 0 {
        false
    } else if a[0] == b[0] {
        seq_char_le(a.drop_first(), b.drop_first())
    } else {
        (a[0] as u32) < (b[0] as u32)
    }
}

/// The diagnostic order: by line, then column, then message text.
/// Invalid positions (line 0) sort before every real line.
pub open spec fn err_le(a: ErrS, b: ErrS) -> bool {
    if a.pos.line != b.pos.line {
        a.pos.line < b.pos.line
    } else if a.pos.column != b.pos.column {
        a.pos.column < b.pos.column
    } else {
        seq_char_le(a.msg, b.msg)
    }
}

/// Stable insertion of one diagnostic into a sorted run: it lands after
/// every diagnostic that is at most equal to it.
pub open spec fn insert_sorted(x: ErrS, s: Seq<ErrS>) -> Seq<ErrS>
    decreases s.len(),
{
    if s.len() == 0 {
        seq![x]
    } else if err_le(s[0], x) {
        seq![s[0]] + insert_sorted(x, s.drop_first())
    } else {
        seq![x] + s
    }
}

/// Stable insertion sort over a diagnostic sequence.
pub open spec fn spec_sort(s: Seq<ErrS>) -> Seq<ErrS>
    decreases s.len(),
{
    if s.len() == 0 {
        seq![]
    } else {
        insert_sorted(s.last(), spec_sort(s.drop_last()))
    }
}

/// Every pair of diagnostics is ordered.
pub open spec fn sorted(s: Seq<ErrS>) -> bool {
    forall|i: int, j: int| 0 <= i < j < s.len() ==> err_le(s[i], s[j])
}

/// Keeps only the first diagnostic of each run of equal line numbers,
/// starting from a previously kept line of `last` (-1 for none).
pub open spec fn keep_first_per_line(s: Seq<ErrS>, last: int) -> Seq<ErrS>
    decreases s.len(),
{
    if s.len() == 0 {
        seq![]
    } else if s[0].pos.line as int == last {
        keep_first_per_line(s.drop_first(), last)
    } else {
        seq![s[0]] + keep_first_per_line(s.drop_first(), s[0].pos.line as int)
    }
}

/// One diagnostic: a resolved position and a message.
#[derive(Debug)]
pub struct Error {
    pub pos: Position,
    pub msg: String,
}

impl View for Error {
    type V = ErrS;

    open spec fn view(&self) -> ErrS {
        ErrS { pos: self.pos, msg: self.msg@ }
    }
}

/// Display text of one diagnostic: "line:column: message", or the bare
/// message when the position is invalid.
pub open spec fn err_text(e: ErrS) -> Seq<char> {
    if e.pos.line != 0 {
        pos_text(e.pos) + ": "@ + e.msg
    } else {
        e.msg
    }
}

impl Error {
    /// Renders this diagnostic.
    pub fn text(&self) -> (r: String)
        ensures
            r@ == err_text(self@),
    {
        if self.pos.is_valid() {
            let mut r = self.pos.text();
            r.append(": ");
            r.append(self.msg.as_str());
            r
        } else {
            let mut r = String::new();
            r.append(self.msg.as_str());
            proof {
                assert(r@ =~= self.msg@);
            }
            r
        }
    }
}

/// Display text of a whole list: "no errors", the single diagnostic, or
/// the first diagnostic with a count of the rest.
pub open spec fn list_text(s: Seq<ErrS>) -> Seq<char> {
    if s.len() == 0 {
        "no errors"@
    } else if s.len() == 1 {
        err_text(s[0])
    } else {
        err_text(s[0]) + " (and "@ + dec_str(s.len() - 1) + " more errors)"@
    }
}

/// An ordered list of diagnostics.
#[derive(Debug)]
pub struct ErrorList(Vec<Error>);

impl View for ErrorList {
    type V = Seq<ErrS>;

    closed spec fn view(&self) -> Seq<ErrS> {
        self.0@.map_values(|e: Error| e@)
    }
}

impl ErrorList {
    /// An empty list.
    pub fn new() -> (r: ErrorList)
        ensures
            r@ == Seq::<ErrS>::empty(),
    {
        let r = ErrorList(Vec::new());
        proof {
            assert(r@ =~= Seq::<ErrS>::empty());
        }
        r
    }

    /// Appends one diagnostic; ordering is established later by `sort`.
    pub fn add(&mut self, pos: Position, msg: String)
        ensures
            final(self)@ == old(self)@.push(ErrS { pos, msg: msg@ }),
    {
        let ghost m = msg@;
        self.0.push(Error { pos, msg });
        proof {
            assert(self@ =~= old(self)@.push(ErrS { pos, msg: m }));
        }
    }

    /// Drops every diagnostic.
    pub fn reset(&mut self)
        ensures
            final(self)@ == Seq::<ErrS>::empty(),
    {
        self.0.clear();
        proof {
            assert(self@ =~= Seq::<ErrS>::empty());
        }
    }

    /// How many diagnostics are held.
    pub fn len(&self) -> (r: usize)
        ensures
            r == self@.len(),
    {
        self.0.len()
    }

    /// True when no diagnostic is held.
    pub fn is_empty(&self) -> (r: bool)
        ensures
            r == (self@.len() == 0),
    {
        self.0.is_empty()
    }

    /// The canonical "did parsing fail" check: the list itself when it is
    /// non-empty, absent otherwise.
    pub fn err(&self) -> (r: Option<&ErrorList>)
        ensures
            self@.len() == 0 ==> r is None,
            self@.len() != 0 ==> r == Some(self),
    {
        if self.is_empty() {
            None
        } else {
            Some(self)
        }
    }

    /// A read-only look at one diagnostic.
    pub fn get(&self, i: usize) -> (r: &Error)
        requires
            i < self@.len(),
        ensures
            r@ == self@[i as int],
    {
        &self.0[i]
    }

    /// Sorts the list stably by (line, column, message).
    pub fn sort(&mut self)
        ensures
            final(self)@ == spec_sort(old(self)@),
            sorted(final(self)@),
            final(self)@.len() == old(self)@.len(),
    {
        let ghost orig = self@;
        let mut acc: Vec<Error> = Vec::new();
        let ghost mut k: int = 0;
        proof {
            assert(self@ =~= orig.skip(0));
            assert(acc@.map_values(|e: Error| e@) =~= spec_sort(orig.take(0)));
        }
        while self.0.len() > 0
            invariant
                0 <= k <= orig.len(),
                self@ =~= orig.skip(k),
                acc@.map_values(|e: Error| e@) == spec_sort(orig.take(k)),
                sorted(acc@.map_values(|e: Error| e@)),
            decreases self@.len(),
        {
            let ghost accv = acc@.map_values(|e: Error| e@);
            let ghost vec0 = self.0@;
            let e = self.0.remove(0);
            proof {
                assert(vec0.map_values(|ee: Error| ee@) =~= orig.skip(k));
                assert(vec0[0]@ == orig.skip(k)[0]);
                assert(e@ == orig[k]);
                assert(self.0@ =~= vec0.remove(0));
                assert forall|t: int| 0 <= t < self@.len() implies self@[t] == orig.skip(k + 1)[t] by {
                    assert(self.0@[t] == vec0[t + 1]);
                    assert(self@[t] == self.0@[t]@);
                    assert(vec0[t + 1]@ == orig.skip(k)[t + 1]);
                }
                assert(self@ =~= orig.skip(k + 1));
            }
            let n = acc.len();
            let mut j: usize = 0;
            while j < n && err_le_exec(&acc[j], &e)
                invariant
                    j <= n,
                    n == acc@.len(),
                    acc@.map_values(|ee: Error| ee@) == accv,
                    forall|t: int| 0 <= t < j ==> err_le(accv[t], e@),
                decreases n - j,
            {
                proof {
                    assert(accv[j as int] == acc@[j as int]@);
                }
                j += 1;
            }
            proof {
                assert(j < n ==> !err_le(accv[j as int], e@));
                lemma_insert_at(e@, accv, j as int);
            }
            acc.insert(j, e);
            proof {
                let k1 = k + 1;
                assert(orig.take(k1).last() == orig[k]);
                assert(orig.take(k1).drop_last() =~= orig.take(k));
                assert(acc@.map_values(|ee: Error| ee@) =~= accv.insert(j as int, e@));
                lemma_insert_preserves_sorted(e@, accv);
            }
            proof {
                k = k + 1;
            }
        }
        proof {
            assert(orig.take(k) =~= orig);
        }
        self.0 = acc;
        proof {
            lemma_sort_len(orig);
        }
    }

    /// Sorts, then keeps only the first diagnostic of each distinct line:
    /// the count never grows, and afterwards every held line number is
    /// distinct.
    pub fn remove_multiples(&mut self)
        ensures
            final(self)@ == keep_first_per_line(spec_sort(old(self)@), -1),
            final(self)@.len() <= old(self)@.len(),
            forall|i: int, j: int|
                0 <= i < j < final(self)@.len() ==> final(self)@[i].pos.line
                    != final(self)@[j].pos.line,
    {
        self.sort();
        let ghost sall = self@;
        let mut unique: Vec<Error> = Vec::new();
        let mut last_line: Option<usize> = None;
        proof {
            assert(unique@.map_values(|e: Error| e@) + keep_first_per_line(sall, -1)
                =~= keep_first_per_line(sall, -1));
        }
        while self.0.len() > 0
            invariant
                unique@.map_values(|e: Error| e@) + keep_first_per_line(
                    self@,
                    match last_line {
                        Some(l) => l as int,
                        None => -1,
                    },
                ) == keep_first_per_line(sall, -1),
            decreases self@.len(),
        {
            let ghost rest0 = self@;
            let ghost uv0 = unique@.map_values(|e: Error| e@);
            let ghost l0: int = match last_line {
                Some(l) => l as int,
                None => -1,
            };
            let ghost vec0 = self.0@;
            let e = self.0.remove(0);
            proof {
                assert(vec0[0]@ == rest0[0]);
                assert(e@ == rest0[0]);
                assert(self.0@ =~= vec0.remove(0));
                assert(self@ =~= rest0.drop_first());
            }
            let keep = match last_line {
                Some(l) => e.pos.line != l,
                None => true,
            };
            if keep {
                last_line = Some(e.pos.line);
                let ghost l1: int = e.pos.line as int;
                unique.push(e);
                proof {
                    assert(unique@.map_values(|ee: Error| ee@) =~= uv0.push(rest0[0]));
                    assert(keep_first_per_line(rest0, l0) == seq![rest0[0]]
                        + keep_first_per_line(rest0.drop_first(), l1));
                    assert((uv0.push(rest0[0])) + keep_first_per_line(rest0.drop_first(), l1)
                        =~= uv0 + keep_first_per_line(rest0, l0));
                }
            } else {
                proof {
                    assert(keep_first_per_line(rest0, l0) == keep_first_per_line(
                        rest0.drop_first(),
                        l0,
                    ));
                }
            }
        }
        proof {
            assert(self@.len() == 0);
            assert(keep_first_per_line(
                self@,
                match last_line {
                    Some(l) => l as int,
                    None => -1,
                },
            ) =~= Seq::<ErrS>::empty());
        }
        let ghost uv = unique@.map_values(|e: Error| e@);
        self.0 = unique;
        proof {
            assert(uv + Seq::<ErrS>::empty() =~= uv);
            assert(self@ == keep_first_per_line(sall, -1));
            lemma_sort_len(old(self)@);
            lemma_keep_len(sall, -1);
            lemma_sorted_lines(sall);
            lemma_keep_distinct(sall, -1);
        }
    }

    /// An element-wise copy of the list.
    pub fn duplicate(&self) -> (r: ErrorList)
        ensures
            r@ == self@,
    {
        let mut out: Vec<Error> = Vec::new();
        let n = self.0.len();
        let mut i: usize = 0;
        while i < n
            invariant
                i <= n,
                n == self.0@.len(),
                n == self@.len(),
                out@.len() == i,
                out@.map_values(|e: Error| e@) =~= self@.take(i as int),
            decreases n - i,
        {
            let e = &self.0[i];
            let e2 = Error { pos: e.pos, msg: e.msg.clone() };
            let ghost e2g = e2@;
            let ghost out0 = out@;
            out.push(e2);
            proof {
                assert(self@[i as int] == self.0@[i as int]@);
                assert(e2g == self@[i as int]);
                assert(out@ =~= out0.push(Error { pos: self.0@[i as int].pos, msg: self.0@[i as int].msg }));
                assert(out@.len() == i + 1);
                assert(out@[i as int]@ == e2g);
                let ov = out@.map_values(|ee: Error| ee@);
                assert forall|t: int| 0 <= t < i + 1 implies #[trigger] ov[t] == self@.take(
                    i as int + 1,
                )[t] by {
                    if t < i {
                        assert(out@[t] == out0[t]);
                        assert(out0.map_values(|ee: Error| ee@)[t] == self@.take(i as int)[t]);
                    }
                }
                assert(out@.map_values(|ee: Error| ee@) =~= self@.take(i as int + 1));
            }
            i += 1;
        }
        proof {
            assert(self@.take(n as int) =~= self@);
        }
        ErrorList(out)
    }

    /// Renders the list: the first diagnostic, with a count of any others.
    pub fn text(&self) -> (r: String)
        ensures
            r@ == list_text(self@),
    {
        let n = self.0.len();
        if n == 0 {
            String::from_str("no errors")
        } else if n == 1 {
            proof {
                assert(self@[0] == self.0@[0]@);
            }
            self.0[0].text()
        } else {
            proof {
                assert(self@[0] == self.0@[0]@);
            }
            let mut r = self.0[0].text();
            r.append(" (and ");
            r.append(u64_to_string((n - 1) as u64).as_str());
            r.append(" more errors)");
            r
        }
    }
}

/// Decides the message order, comparing character by character from
/// index `i`.
fn msg_le_from(a: &str, b: &str, i: usize) -> (r: bool)
    requires
        i <= a@.len(),
        i <= b@.len(),
    ensures
        r == seq_char_le(a@.skip(i as int), b@.skip(i as int)),
    decreases a@.len() - i@,
{
    let na = a.unicode_len();
    let nb = b.unicode_len();
    if i == na {
        true
    } else if i == nb {
        false
    } else {
        let ca = a.get_char(i);
        let cb = b.get_char(i);
        proof {
            assert(a@.skip(i as int)[0] == a@[i as int]);
            assert(b@.skip(i as int)[0] == b@[i as int]);
        }
        if ca == cb {
            let r = msg_le_from(a, b, i + 1);
            proof {
                assert(a@.skip(i as int).drop_first() =~= a@.skip(i as int + 1));
                assert(b@.skip(i as int).drop_first() =~= b@.skip(i as int + 1));
            }
            r
        } else {
            (ca as u32) < (cb as u32)
        }
    }
}

/// Decides the diagnostic order of two held errors.
fn err_le_exec(a: &Error, b: &Error) -> (r: bool)
    ensures
        r == err_le(a@, b@),
{
    if a.pos.line != b.pos.line {
        a.pos.line < b.pos.line
    } else if a.pos.column != b.pos.column {
        a.pos.column < b.pos.column
    } else {
        proof {
            assert(a.msg@.skip(0) =~= a.msg@);
            assert(b.msg@.skip(0) =~= b.msg@);
        }
        msg_le_from(a.msg.as_str(), b.msg.as_str(), 0)
    }
}

/// The message order relates every pair one way or the other.
proof fn lemma_char_le_total(a: Seq<char>, b: Seq<char>)
    ensures
        seq_char_le(a, b) || seq_char_le(b, a),
    decreases a.len(),
{
    if a.len() != 0 && b.len() != 0 {
        if a[0] == b[0] {
            lemma_char_le_total(a.drop_first(), b.drop_first());
        } else {
            vstd::utf8::char_u32_cast(a[0], a[0] as u32);
            vstd::utf8::char_u32_cast(b[0], b[0] as u32);
            assert((a[0] as u32) != (b[0] as u32));
        }
    }
}

/// The message order is transitive.
proof fn lemma_char_le_trans(a: Seq<char>, b: Seq<char>, c: Seq<char>)
    requires
        seq_char_le(a, b),
        seq_char_le(b, c),
    ensures
        seq_char_le(a, c),
    decreases a.len(),
{
    if a.len() != 0 {
        assert(b.len() != 0);
        assert(c.len() != 0);
        if a[0] == b[0] && b[0] == c[0] {
            lemma_char_le_trans(a.drop_first(), b.drop_first(), c.drop_first());
        }
    }
}

/// The diagnostic order is transitive.
pub proof fn lemma_err_le_trans(a: ErrS, b: ErrS, c: ErrS)
    requires
        err_le(a, b),
        err_le(b, c),
    ensures
        err_le(a, c),
{
    if a.pos.line == b.pos.line && b.pos.line == c.pos.line && a.pos.column == b.pos.column
        && b.pos.column == c.pos.column {
        lemma_char_le_trans(a.msg, b.msg, c.msg);
    }
}

/// The diagnostic order relates every pair one way or the other.
pub proof fn lemma_err_le_total(a: ErrS, b: ErrS)
    ensures
        err_le(a, b) || err_le(b, a),
{
    lemma_char_le_total(a.msg, b.msg);
}

/// Inserting into a run whose elements all precede `x` appends `x`.
proof fn lemma_insert_all_le(x: ErrS, s: Seq<ErrS>)
    requires
        forall|t: int| 0 <= t < s.len() ==> err_le(s[t], x),
    ensures
        insert_sorted(x, s) == s.push(x),
    decreases s.len(),
{
    if s.len() == 0 {
        assert(insert_sorted(x, s) =~= s.push(x));
    } else {
        lemma_insert_all_le(x, s.drop_first());
        assert(seq![s[0]] + s.drop_first().push(x) =~= s.push(x));
    }
}

/// Where the first `j` elements precede `x` and the one after does not,
/// insertion lands exactly at index `j`.
proof fn lemma_insert_at(x: ErrS, s: Seq<ErrS>, j: int)
    requires
        0 <= j <= s.len(),
        forall|t: int| 0 <= t < j ==> err_le(s[t], x),
        j < s.len() ==> !err_le(s[j], x),
    ensures
        insert_sorted(x, s) == s.insert(j, x),
    decreases j,
{
    if j == 0 {
        if s.len() == 0 {
            assert(insert_sorted(x, s) =~= s.insert(0, x));
        } else {
            assert(seq![x] + s =~= s.insert(0, x));
        }
    } else {
        assert(forall|t: int|
            0 <= t < j - 1 ==> s.drop_first()[t] == s[t + 1] && err_le(s.drop_first()[t], x));
        lemma_insert_at(x, s.drop_first(), j - 1);
        assert(seq![s[0]] + s.drop_first().insert(j - 1, x) =~= s.insert(j, x));
    }
}

/// Insertion into a sorted run keeps it sorted.
proof fn lemma_insert_preserves_sorted(x: ErrS, s: Seq<ErrS>)
    requires
        sorted(s),
    ensures
        sorted(insert_sorted(x, s)),
        insert_sorted(x, s).len() == s.len() + 1,
    decreases s.len(),
{
    if s.len() == 0 {
    } else if err_le(s[0], x) {
        assert(forall|i: int, j: int|
            0 <= i < j < s.drop_first().len() ==> err_le(s.drop_first()[i], s.drop_first()[j]));
        lemma_insert_preserves_sorted(x, s.drop_first());
        let r = seq![s[0]] + insert_sorted(x, s.drop_first());
        lemma_insert_elems(x, s.drop_first());
        assert forall|i: int, j: int| 0 <= i < j < r.len() implies err_le(r[i], r[j]) by {
            if i == 0 {
                let e = r[j];
                let inner = insert_sorted(x, s.drop_first());
                assert(inner[j - 1] == e);
                if e == x {
                } else {
                    let t = choose|t: int| 0 <= t < s.drop_first().len() && s.drop_first()[t] == e;
                    assert(err_le(s[0], s[t + 1]));
                }
            }
        }
    } else {
        lemma_err_le_total(x, s[0]);
        let r = seq![x] + s;
        assert forall|i: int, j: int| 0 <= i < j < r.len() implies err_le(r[i], r[j]) by {
            if i == 0 {
                if j == 1 {
                } else {
                    assert(err_le(s[0], s[j - 1]));
                    lemma_err_le_trans(x, s[0], s[j - 1]);
                }
            }
        }
    }
}

/// Every element of an insertion result is `x` or came from the run.
proof fn lemma_insert_elems(x: ErrS, s: Seq<ErrS>)
    ensures
        forall|k: int|
            0 <= k < insert_sorted(x, s).len() ==> insert_sorted(x, s)[k] == x || exists|t: int|
                0 <= t < s.len() && s[t] == insert_sorted(x, s)[k],
    decreases s.len(),
{
    if s.len() == 0 {
    } else if err_le(s[0], x) {
        lemma_insert_elems(x, s.drop_first());
        let r = seq![s[0]] + insert_sorted(x, s.drop_first());
        assert forall|k: int|
            0 <= k < r.len() implies r[k] == x || exists|t: int|
            0 <= t < s.len() && s[t] == r[k] by {
            if k == 0 {
                assert(s[0] == r[0]);
            } else {
                let inner = insert_sorted(x, s.drop_first());
                assert(inner[k - 1] == r[k]);
                if inner[k - 1] == x {
                } else {
                    let t = choose|t: int|
                        0 <= t < s.drop_first().len() && s.drop_first()[t] == inner[k - 1];
                    assert(s[t + 1] == r[k]);
                }
            }
        }
    }
}

/// Sorting keeps the length.
proof fn lemma_sort_len(s: Seq<ErrS>)
    ensures
        spec_sort(s).len() == s.len(),
    decreases s.len(),
{
    if s.len() != 0 {
        lemma_sort_len(s.drop_last());
        lemma_insert_len(s.last(), spec_sort(s.drop_last()));
    }
}

/// Insertion grows the length by one.
proof fn lemma_insert_len(x: ErrS, s: Seq<ErrS>)
    ensures
        insert_sorted(x, s).len() == s.len() + 1,
    decreases s.len(),
{
    if s.len() != 0 && err_le(s[0], x) {
        lemma_insert_len(x, s.drop_first());
    }
}

/// The sort's result is sorted.
pub proof fn lemma_sort_sorted(s: Seq<ErrS>)
    ensures
        sorted(spec_sort(s)),
    decreases s.len(),
{
    if s.len() != 0 {
        lemma_sort_sorted(s.drop_last());
        lemma_insert_preserves_sorted(s.last(), spec_sort(s.drop_last()));
    }
}

/// Sorting an already sorted sequence leaves it unchanged.
pub proof fn lemma_sorted_sort_id(s: Seq<ErrS>)
    requires
        sorted(s),
    ensures
        spec_sort(s) == s,
    decreases s.len(),
{
    if s.len() != 0 {
        let pre = s.drop_last();
        assert(forall|i: int, j: int| 0 <= i < j < pre.len() ==> err_le(pre[i], pre[j]));
        lemma_sorted_sort_id(pre);
        assert(forall|t: int| 0 <= t < pre.len() ==> err_le(pre[t], s.last()));
        lemma_insert_all_le(s.last(), pre);
        assert(pre.push(s.last()) =~= s);
    }
}

/// Sorting twice equals sorting once.
pub proof fn lemma_sort_idempotent(s: Seq<ErrS>)
    ensures
        spec_sort(spec_sort(s)) == spec_sort(s),
{
    lemma_sort_sorted(s);
    lemma_sorted_sort_id(spec_sort(s));
}

/// Insertion keeps the inserted diagnostic.
proof fn lemma_insert_contains_new(x: ErrS, s: Seq<ErrS>)
    ensures
        insert_sorted(x, s).contains(x),
    decreases s.len(),
{
    if s.len() == 0 {
        assert(insert_sorted(x, s)[0] == x);
    } else if err_le(s[0], x) {
        lemma_insert_contains_new(x, s.drop_first());
        let t = insert_sorted(x, s.drop_first());
        let i = choose|i: int| 0 <= i < t.len() && t[i] == x;
        assert(insert_sorted(x, s)[i + 1] == x);
    } else {
        assert(insert_sorted(x, s)[0] == x);
    }
}

/// Insertion keeps every diagnostic already in the run.
proof fn lemma_insert_contains_old(x: ErrS, s: Seq<ErrS>, y: ErrS)
    requires
        s.contains(y),
    ensures
        insert_sorted(x, s).contains(y),
    decreases s.len(),
{
    if s.len() > 0 {
        if err_le(s[0], x) {
            if s[0] == y {
                assert(insert_sorted(x, s)[0] == y);
            } else {
                let i = choose|i: int| 0 <= i < s.len() && s[i] == y;
                assert(s.drop_first()[i - 1] == y);
                assert(s.drop_first().contains(y));
                lemma_insert_contains_old(x, s.drop_first(), y);
                let t = insert_sorted(x, s.drop_first());
                let j = choose|j: int| 0 <= j < t.len() && t[j] == y;
                assert(insert_sorted(x, s)[j + 1] == y);
            }
        } else {
            let i = choose|i: int| 0 <= i < s.len() && s[i] == y;
            assert(insert_sorted(x, s)[i + 1] == y);
        }
    }
}

/// Sorting keeps every diagnostic.
pub proof fn lemma_sort_contains(s: Seq<ErrS>, x: ErrS)
    requires
        s.contains(x),
    ensures
        spec_sort(s).contains(x),
    decreases s.len(),
{
    if s.len() > 0 {
        if s.last() == x {
            lemma_insert_contains_new(x, spec_sort(s.drop_last()));
        } else {
            let i = choose|i: int| 0 <= i < s.len() && s[i] == x;
            assert(s.drop_last()[i] == x);
            assert(s.drop_last().contains(x));
            lemma_sort_contains(s.drop_last(), x);
            lemma_insert_contains_old(s.last(), spec_sort(s.drop_last()), x);
        }
    }
}

/// Collapsing never grows the list.
proof fn lemma_keep_len(s: Seq<ErrS>, last: int)
    ensures
        keep_first_per_line(s, last).len() <= s.len(),
    decreases s.len(),
{
    if s.len() != 0 {
        if s[0].pos.line as int == last {
            lemma_keep_len(s.drop_first(), last);
        } else {
            lemma_keep_len(s.drop_first(), s[0].pos.line as int);
        }
    }
}

/// In a sorted sequence the line numbers never decrease.
proof fn lemma_sorted_lines(s: Seq<ErrS>)
    requires
        sorted(s),
    ensures
        forall|i: int, j: int| 0 <= i <= j < s.len() ==> s[i].pos.line <= s[j].pos.line,
{
    assert forall|i: int, j: int| 0 <= i <= j < s.len() implies s[i].pos.line
        <= s[j].pos.line by {
        if i < j {
            assert(err_le(s[i], s[j]));
        }
    }
}

/// Collapsing a line-sorted sequence leaves pairwise distinct,
/// strictly increasing line numbers, all above `last`.
proof fn lemma_keep_distinct(s: Seq<ErrS>, last: int)
    requires
        forall|i: int, j: int| 0 <= i <= j < s.len() ==> s[i].pos.line <= s[j].pos.line,
        forall|i: int| 0 <= i < s.len() ==> s[i].pos.line as int >= last,
    ensures
        forall|i: int, j: int|
            0 <= i < j < keep_first_per_line(s, last).len() ==> keep_first_per_line(s, last)[i].pos.line
                < keep_first_per_line(s, last)[j].pos.line,
        forall|i: int|
            0 <= i < keep_first_per_line(s, last).len() ==> keep_first_per_line(s, last)[i].pos.line
                as int > last,
    decreases s.len(),
{
    if s.len() != 0 {
        let rest = s.drop_first();
        assert(forall|i: int, j: int|
            0 <= i <= j < rest.len() ==> rest[i].pos.line <= rest[j].pos.line);
        if s[0].pos.line as int == last {
            assert(forall|i: int| 0 <= i < rest.len() ==> rest[i].pos.line as int >= last);
            lemma_keep_distinct(rest, last);
            assert(keep_first_per_line(s, last) == keep_first_per_line(rest, last));
        } else {
            let l1 = s[0].pos.line as int;
            assert(forall|i: int| 0 <= i < rest.len() ==> rest[i].pos.line as int >= l1);
            lemma_keep_distinct(rest, l1);
            let r = seq![s[0]] + keep_first_per_line(rest, l1);
            assert(keep_first_per_line(s, last) == r);
            assert forall|i: int, j: int| 0 <= i < j < r.len() implies r[i].pos.line
                < r[j].pos.line by {
                assert(keep_first_per_line(rest, l1)[j - 1] == r[j]);
                if i > 0 {
                    assert(keep_first_per_line(rest, l1)[i - 1] == r[i]);
                }
            }
            assert forall|i: int| 0 <= i < r.len() implies r[i].pos.line as int > last by {
                if i > 0 {
                    assert(keep_first_per_line(rest, l1)[i - 1] == r[i]);
                }
            }
        }
    }
}

} // verus!
