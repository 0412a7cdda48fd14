use vstd::prelude::*;

verus! {

/// The missing digits of one neighbourhood (a row, a column or a block).
/// Entry `i` is `true` while digit `i + 1` is still missing there.
pub type MisSet = [bool; 9];

/// One missing-digit set for each of the nine neighbourhoods of one kind.
pub type HoodMisSet = [MisSet; 9];

/// Every digit missing.
pub open spec fn all_missing() -> Seq<bool> {
    Seq::new(9, |i: int| true)
}

/// No digit missing.
pub open spec fn none_missing() -> Seq<bool> {
    Seq::new(9, |i: int| false)
}

/// Entrywise "and" of two sets: the digits missing from both.
pub open spec fn inter(a: Seq<bool>, b: Seq<bool>) -> Seq<bool> {
    Seq::new(9, |i: int| a[i] && b[i])
}

/// Entrywise "and" of three sets.
pub open spec fn inter3(a: Seq<bool>, b: Seq<bool>, c: Seq<bool>) -> Seq<bool> {
    Seq::new(9, |i: int| a[i] && b[i] && c[i])
}

/// The digits of `a` that are not in `b`.
pub open spec fn minus(a: Seq<bool>, b: Seq<bool>) -> Seq<bool> {
    Seq::new(9, |i: int| a[i] && !b[i])
}

/// Number of `true` entries of `s`.
pub open spec fn count_missing(s: Seq<bool>) -> nat
    decreases s.len(),
{
    if s.len() == 0 {
        0
    } else {
        count_missing(s.drop_last()) + if s.last() {
            1nat
        } else {
            0nat
        }
    }
}

/// The set of digits (1 to 9) that `s` marks as missing.
pub open spec fn missing_digits(s: Seq<bool>) -> Set<int> {
    Set::new(|d: int| 1 <= d <= 9 && s[d - 1])
}

/// The character of a decimal digit.
pub open spec fn digit_char(d: int) -> char {
    (d + 48) as char
}

/// The digits marked in the first `n` entries of `s`, ascending, separated by commas.
pub open spec fn digits_text(s: Seq<bool>, n: nat) -> Seq<char>
    decreases n,
{
    if n == 0 {
        Seq::empty()
    } else {
        let prev = digits_text(s, (n - 1) as nat);
        if s[n - 1] {
            if prev.len() == 0 {
                seq![digit_char(n as int)]
            } else {
                prev + seq![',', digit_char(n as int)]
            }
        } else {
            prev
        }
    }
}

/// How a set is shown: its missing digits in braces, such as `{2,3,8,9}`.
pub open spec fn set_text(s: Seq<bool>) -> Seq<char> {
    seq!['{'] + digits_text(s, 9) + seq!['}']
}

/// The text of one decimal digit.
pub fn digit_str(d: u8) -> (t: &'static str)
    requires
        d <= 9,
    ensures
        t@ == seq![digit_char(d as int)],
{
    match d {
        0 => {
            proof {
                reveal_strlit("0");
            }
            "0"
        },
        1 => {
            proof {
                reveal_strlit("1");
            }
            "1"
        },
        2 => {
            proof {
                reveal_strlit("2");
            }
            "2"
        },
        3 => {
            proof {
                reveal_strlit("3");
            }
            "3"
        },
        4 => {
            proof {
                reveal_strlit("4");
            }
            "4"
        },
        5 => {
            proof {
                reveal_strlit("5");
            }
            "5"
        },
        6 => {
            proof {
                reveal_strlit("6");
            }
            "6"
        },
        7 => {
            proof {
                reveal_strlit("7");
            }
            "7"
        },
        8 => {
            proof {
                reveal_strlit("8");
            }
            "8"
        },
        _ => {
            proof {
                reveal_strlit("9");
            }
            "9"
        },
    }
}

/// Operations on the missing-digit sets of all nine neighbourhoods of one kind.
pub trait HoodMisSetOps {
    fn new() -> HoodMisSet;
}

impl HoodMisSetOps for HoodMisSet {
    /// Nine sets, each with every digit missing.
    fn new() -> (r: HoodMisSet)
        ensures
            forall|i: int| 0 <= i < 9 ==> (#[trigger] r[i])@ == all_missing(),
    {
        let r: HoodMisSet = [[true; 9]; 9];
        assert forall|i: int| 0 <= i < 9 implies (#[trigger] r[i])@ == all_missing() by {
            assert(r[i]@ =~= all_missing());
        }
        r
    }
}

/// Operations on one missing-digit set.
pub trait MisSetOps {
    fn new() -> MisSet;

    fn new_all_found() -> MisSet;

    fn found(&mut self, digit: u8)
        requires
            1 <= digit <= 9,
    ;

    fn is_missing(&self, digit: u8) -> bool
        requires
            1 <= digit <= 9,
    ;

    fn inters(self, rhs: Self) -> Self;

    fn inters3(self, s2: Self, s3: Self) -> Self;

    fn remove(&mut self, take: MisSet);

    fn len(&self) -> usize;

    fn to_string(&self) -> String;
}

impl MisSetOps for MisSet {
    /// The set with every digit missing.
    fn new() -> (r: MisSet)
        ensures
            r@ == all_missing(),
    {
        let r: MisSet = [true; 9];
        assert(r@ =~= all_missing());
        r
    }

    /// The set with no digit missing.
    fn new_all_found() -> (r: MisSet)
        ensures
            r@ == none_missing(),
    {
        let r: MisSet = [false; 9];
        assert(r@ =~= none_missing());
        r
    }

    /// Marks `digit` as found: it is no longer missing; every other entry stays.
    fn found(&mut self, digit: u8)
        ensures
            final(self)@ == old(self)@.update(digit - 1, false),
    {
        self[(digit - 1) as usize] = false;
    }

    /// Whether `digit` is still missing.
    fn is_missing(&self, digit: u8) -> (r: bool)
        ensures
            r == self@[digit - 1],
    {
        self[digit as usize - 1]
    }

    /// Intersection: the digits missing from both sets.
    fn inters(self, rhs: Self) -> (r: Self)
        ensures
            r@ == inter(self@, rhs@),
    {
        let mut r: MisSet = [false; 9];
        let mut i: usize = 0;
        while i < 9
            invariant
                i <= 9,
                forall|j: int| 0 <= j < i ==> r[j] == (self[j] && rhs[j]),
            decreases 9 - i,
        {
            r[i] = self[i] && rhs[i];
            i = i + 1;
        }
        assert(r@ =~= inter(self@, rhs@));
        r
    }

    /// Intersection of three sets.
    fn inters3(self, s2: Self, s3: Self) -> (r: Self)
        ensures
            r@ == inter3(self@, s2@, s3@),
    {
        let mut r: MisSet = [false; 9];
        let mut i: usize = 0;
        while i < 9
            invariant
                i <= 9,
                forall|j: int| 0 <= j < i ==> r[j] == (self[j] && s2[j] && s3[j]),
            decreases 9 - i,
        {
            r[i] = self[i] && s2[i] && s3[i];
            i = i + 1;
        }
        assert(r@ =~= inter3(self@, s2@, s3@));
        r
    }

    /// Takes away every digit that `take` marks as missing; the others stay as they were.
    fn remove(&mut self, take: MisSet)
        ensures
            final(self)@ == minus(old(self)@, take@),
    {
        let mut r: MisSet = *self;
        let mut i: usize = 0;
        while i < 9
            invariant
                i <= 9,
                forall|j: int| 0 <= j < i ==> r[j] == (old(self)[j] && !take[j]),
                forall|j: int| i <= j < 9 ==> r[j] == old(self)[j],
            decreases 9 - i,
        {
            if take[i] {
                r[i] = false;
            }
            i = i + 1;
        }
        assert(r@ =~= minus(old(self)@, take@));
        *self = r;
    }

    /// Number of missing digits.
    fn len(&self) -> (r: usize)
        ensures
            r == count_missing(self@),
    {
        let mut n: usize = 0;
        let mut i: usize = 0;
        while i < 9
            invariant
                i <= 9,
                n == count_missing(self@.take(i as int)),
                n <= i,
            decreases 9 - i,
        {
            assert(self@.take(i + 1).drop_last() =~= self@.take(i as int));
            if self[i] {
                n = n + 1;
            }
            i = i + 1;
        }
        assert(self@.take(9) =~= self@);
        n
    }

    /// The missing digits in braces, ascending and separated by commas, such as `{2,3,8,9}`.
    fn to_string(&self) -> (r: String)
        ensures
            r@ == set_text(self@),
    {
        let mut s = String::new();
        proof {
            reveal_strlit("{");
            reveal_strlit(",");
            reveal_strlit("}");
        }
        s.append("{");
        let mut first = true;
        let mut i: usize = 0;
        while i < 9
            invariant
                i <= 9,
                s@ == seq!['{'] + digits_text(self@, i as nat),
                first <==> digits_text(self@, i as nat).len() == 0,
            decreases 9 - i,
        {
            let ghost prev = digits_text(self@, i as nat);
            assert(digits_text(self@, (i + 1) as nat) == if self@[i as int] {
                if prev.len() == 0 {
                    seq![digit_char(i + 1)]
                } else {
                    prev + seq![',', digit_char(i + 1)]
                }
            } else {
                prev
            });
            if self[i] {
                if !first {
                    proof {
                        reveal_strlit(",");
                    }
                    s.append(",");
                    assert(s@ =~= seq!['{'] + prev + seq![',']);
                } else {
                    assert(s@ =~= seq!['{'] + prev);
                }
                let d = digit_str((i + 1) as u8);
                assert(d@ == seq![digit_char(i + 1)]);
                s.append(d);
                first = false;
            }
            assert(s@ =~= seq!['{'] + digits_text(self@, (i + 1) as nat));
            i = i + 1;
        }
        s.append("}");
        s
    }
}

} // verus!

verus! {

/// A set that marks a digit counts at least one.
pub proof fn lemma_count_at_least_one(s: Seq<bool>, i: int)
    requires
        0 <= i < s.len(),
        s[i],
    ensures
        count_missing(s) >= 1,
    decreases s.len(),
{
    if i != s.len() - 1 {
        lemma_count_at_least_one(s.drop_last(), i);
    }
}

/// A set that marks two different digits counts at least two.
pub proof fn lemma_count_at_least_two(s: Seq<bool>, i: int, j: int)
    requires
        0 <= i < s.len(),
        0 <= j < s.len(),
        i != j,
        s[i],
        s[j],
    ensures
        count_missing(s) >= 2,
    decreases s.len(),
{
    let n = s.len() - 1;
    if i == n {
        lemma_count_at_least_one(s.drop_last(), j);
    } else if j == n {
        lemma_count_at_least_one(s.drop_last(), i);
    } else {
        lemma_count_at_least_two(s.drop_last(), i, j);
    }
}

/// A set of count one marks a single digit.
pub proof fn lemma_count_one_unique(s: Seq<bool>, i: int, j: int)
    requires
        count_missing(s) == 1,
        0 <= i < s.len(),
        0 <= j < s.len(),
        s[i],
        s[j],
    ensures
        i == j,
{
    if i != j {
        lemma_count_at_least_two(s, i, j);
    }
}

/// A set that marks no digit counts zero.
pub proof fn lemma_count_none(s: Seq<bool>)
    requires
        forall|i: int| 0 <= i < s.len() ==> !s[i],
    ensures
        count_missing(s) == 0,
    decreases s.len(),
{
    if s.len() > 0 {
        lemma_count_none(s.drop_last());
    }
}

/// The digit of a set of count one: the first entry that is `true`, plus one.
pub fn only_digit(m: &MisSet) -> (d: u8)
    requires
        count_missing(m@) == 1,
    ensures
        1 <= d <= 9,
        m@[d - 1],
        forall|i: int| 0 <= i < 9 && m@[i] ==> i == d - 1,
{
    let mut i: usize = 0;
    while i < 9
        invariant
            i <= 9,
            count_missing(m@) == 1,
            forall|j: int| 0 <= j < i ==> !m@[j],
        decreases 9 - i,
    {
        if m[i] {
            proof {
                assert forall|j: int| 0 <= j < 9 && m@[j] implies j == i by {
                    lemma_count_one_unique(m@, i as int, j);
                }
            }
            return (i + 1) as u8;
        }
        i = i + 1;
    }
    proof {
        lemma_count_none(m@);
    }
    0
}

/// Intersection does not depend on the order of the two sets.
pub proof fn lemma_inters_commutes(a: Seq<bool>, b: Seq<bool>)
    ensures
        inter(a, b) == inter(b, a),
{
    assert(inter(a, b) =~= inter(b, a));
}

/// Intersection does not depend on how three sets are grouped.
pub proof fn lemma_inters_associates(a: Seq<bool>, b: Seq<bool>, c: Seq<bool>)
    ensures
        inter(inter(a, b), c) == inter(a, inter(b, c)),
{
    assert(inter(inter(a, b), c) =~= inter(a, inter(b, c)));
}

/// The intersection of three sets is the intersection of the first two with the third.
pub proof fn lemma_inters3_is_two_inters(a: Seq<bool>, b: Seq<bool>, c: Seq<bool>)
    ensures
        inter3(a, b, c) == inter(inter(a, b), c),
{
    assert(inter3(a, b, c) =~= inter(inter(a, b), c));
}

/// As sets of digits: `inters` is intersection, `remove` is difference, and
/// `found(d)` takes `d` out.
pub proof fn lemma_missing_digits_ops(a: Seq<bool>, b: Seq<bool>, d: int)
    requires
        a.len() == 9,
        b.len() == 9,
        1 <= d <= 9,
    ensures
        missing_digits(inter(a, b)) == missing_digits(a).intersect(missing_digits(b)),
        missing_digits(minus(a, b)) == missing_digits(a).difference(missing_digits(b)),
        missing_digits(a.update(d - 1, false)) == missing_digits(a).remove(d),
{
    assert(missing_digits(inter(a, b)) =~= missing_digits(a).intersect(missing_digits(b)));
    assert(missing_digits(minus(a, b)) =~= missing_digits(a).difference(missing_digits(b)));
    assert(missing_digits(a.update(d - 1, false)) =~= missing_digits(a).remove(d));
}

/// The digits marked among the first entries of `s`.
spec fn marked_prefix(s: Seq<bool>) -> Set<int> {
    Set::new(|d: int| 1 <= d <= s.len() && s[d - 1])
}

proof fn lemma_marked_prefix_count(s: Seq<bool>)
    ensures
        marked_prefix(s).finite(),
        marked_prefix(s).len() == count_missing(s),
    decreases s.len(),
{
    if s.len() == 0 {
        assert(marked_prefix(s) =~= Set::empty());
    } else {
        let p = s.drop_last();
        lemma_marked_prefix_count(p);
        let n = s.len() as int;
        if s.last() {
            assert(marked_prefix(s) =~= marked_prefix(p).insert(n));
        } else {
            assert(marked_prefix(s) =~= marked_prefix(p));
        }
    }
}

/// `len` counts the missing digits: it is the size of the set of missing digits.
pub proof fn lemma_count_is_size(s: Seq<bool>)
    requires
        s.len() == 9,
    ensures
        missing_digits(s).finite(),
        count_missing(s) == missing_digits(s).len(),
{
    lemma_marked_prefix_count(s);
    assert(marked_prefix(s) =~= missing_digits(s));
}

/// Finding a digit lowers the count by one if it was missing, and leaves it
/// unchanged if not.
pub proof fn lemma_count_found(s: Seq<bool>, d: int)
    requires
        s.len() == 9,
        1 <= d <= 9,
    ensures
        count_missing(s.update(d - 1, false)) == if s[d - 1] {
            count_missing(s) - 1
        } else {
            count_missing(s) as int
        },
{
    lemma_count_is_size(s);
    lemma_count_is_size(s.update(d - 1, false));
    lemma_missing_digits_ops(s, s, d);
}

/// A new set counts nine missing digits; a set with every digit found counts none.
pub proof fn lemma_count_full_and_empty()
    ensures
        count_missing(all_missing()) == 9,
        count_missing(none_missing()) == 0,
{
    lemma_count_none(none_missing());
    lemma_count_is_size(all_missing());
    assert(missing_digits(all_missing()) =~= Set::new(|d: int| 1 <= d <= 9));
    vstd::set_lib::lemma_int_range(1, 10);
    assert(Set::new(|d: int| 1 <= d <= 9) =~= vstd::set_lib::set_int_range(1, 10));
}

/// The code point of a character.
pub open spec fn char_code(c: char) -> int {
    c as int
}

/// The shape of the digit list of the first `n` entries: one digit per marked
/// entry, ascending, each a marked one, with a comma between each two.
proof fn lemma_digits_text_shape(s: Seq<bool>, n: nat)
    requires
        s.len() == 9,
        n <= 9,
    ensures
        ({
            let t = digits_text(s, n);
            let k = count_missing(s.take(n as int));
            &&& t.len() == if k == 0 {
                0
            } else {
                2 * k - 1
            }
            &&& forall|j: int|
                0 <= j < k ==> 49 <= char_code(#[trigger] t[2 * j]) <= 48 + n && s[char_code(t[2 * j]) - 49]
            &&& forall|j1: int, j2: int|
                0 <= j1 < j2 < k ==> char_code(#[trigger] t[2 * j1]) < char_code(#[trigger] t[2 * j2])
            &&& forall|j: int| 0 <= j < k - 1 ==> #[trigger] t[2 * j + 1] == ','
        }),
    decreases n,
{
    if n > 0 {
        let m = (n - 1) as nat;
        lemma_digits_text_shape(s, m);
        let prev = digits_text(s, m);
        let kp = count_missing(s.take(m as int));
        assert(s.take(n as int).drop_last() =~= s.take(m as int));
        let t = digits_text(s, n);
        let k = count_missing(s.take(n as int));
        let d = digit_char(n as int);
        assert(char_code(d) == n + 48);
        if s[m as int] {
            assert(k == kp + 1);
            if prev.len() == 0 {
                assert(t == seq![d]);
            } else {
                assert(t == prev + seq![',', d]);
                assert forall|j: int| 0 <= j < k implies 49 <= char_code(#[trigger] t[2 * j]) <= 48 + n && s[t[2 * j]
                    as int - 49] by {
                    if j < kp {
                        assert(t[2 * j] == prev[2 * j]);
                    }
                }
                assert forall|j1: int, j2: int| 0 <= j1 < j2 < k implies char_code(#[trigger] t[2 * j1]) < (
                #[trigger] t[2 * j2]) as int by {
                    assert(t[2 * j1] == prev[2 * j1]);
                    if j2 < kp {
                        assert(t[2 * j2] == prev[2 * j2]);
                    }
                }
                assert forall|j: int| 0 <= j < k - 1 implies #[trigger] t[2 * j + 1] == ',' by {
                    if j < kp - 1 {
                        assert(t[2 * j + 1] == prev[2 * j + 1]);
                    }
                }
            }
        } else {
            assert(k == kp);
            assert(t == prev);
        }
    }
}

/// How a set is written: `{`, then one digit for each missing digit, in
/// ascending order, each a digit that the set marks missing, with exactly one
/// comma between each two, then `}`. So the text of a set with `k >= 1` missing
/// digits has `2 * k + 1` characters, and that of a set with none is `{}`.
pub proof fn lemma_set_text_lists_missing_digits(s: Seq<bool>)
    requires
        s.len() == 9,
    ensures
        ({
            let t = set_text(s);
            let k = count_missing(s);
            &&& t.len() == if k == 0 {
                2
            } else {
                2 * k + 1
            }
            &&& t[0] == '{'
            &&& t[t.len() - 1] == '}'
            &&& forall|j: int| 0 <= j < k ==> 49 <= char_code(#[trigger] t[2 * j + 1]) <= 57 && s[char_code(t[2 * j + 1]) - 49]
            &&& forall|j1: int, j2: int|
                0 <= j1 < j2 < k ==> char_code(#[trigger] t[2 * j1 + 1]) < char_code(#[trigger] t[2 * j2 + 1])
            &&& forall|j: int| 1 <= j < k ==> #[trigger] t[2 * j] == ','
        }),
{
    lemma_digits_text_shape(s, 9);
    assert(s.take(9) =~= s);
    let d = digits_text(s, 9);
    let t = set_text(s);
    let k = count_missing(s);
    assert forall|j: int| 0 <= j < k implies 49 <= char_code(#[trigger] t[2 * j + 1]) <= 57 && s[char_code(t[2 * j + 1])
        - 49] by {
        assert(t[2 * j + 1] == d[2 * j]);
    }
    assert forall|j1: int, j2: int| 0 <= j1 < j2 < k implies char_code(#[trigger] t[2 * j1 + 1]) < char_code(#[trigger] t[2
        * j2 + 1]) by {
        assert(t[2 * j1 + 1] == d[2 * j1]);
        assert(t[2 * j2 + 1] == d[2 * j2]);
    }
    assert forall|j: int| 1 <= j < k implies #[trigger] t[2 * j] == ',' by {
        assert(t[2 * j] == d[2 * (j - 1) + 1]);
    }
}

} // verus!
