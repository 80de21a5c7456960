//! A supply of names that never runs dry and never repeats itself.

use vstd::prelude::*;

use crate::ast::Name;

verus! {

/// The decimal digits of a number, most significant first.
pub open spec fn decimal(n: nat) -> Seq<u8>
    decreases n,
{
    if n < 10 {
        seq![n as u8]
    } else {
        decimal(n / 10).push((n % 10) as u8)
    }
}

/// The number that a sequence of decimal digits stands for.
pub open spec fn value(digits: Seq<u8>) -> nat
    decreases digits.len(),
{
    if digits.len() == 0 {
        0
    } else {
        value(digits.drop_last()) * 10 + digits.last() as nat
    }
}

/// The character that stands for a digit.
pub open spec fn digit_char(digit: u8) -> char {
    (48 + digit) as char
}

/// The `n`-th name of a supply: the reserved prefix, `n` in decimal, an underscore and
/// the hint.
pub open spec fn nth_name(reserved: Name, n: nat, hint: Name) -> Name {
    reserved + decimal(n).map_values(|d: u8| digit_char(d)) + seq!['_'] + hint
}

/// A supply of names that share a reserved prefix.
pub struct SymbolGen {
    reserved: String,
    digits: Vec<u8>,
}

impl SymbolGen {
    /// The prefix of every name that the supply hands out.
    pub closed spec fn reserved(&self) -> Name {
        self.reserved@
    }

    /// How many names the supply has handed out.
    pub closed spec fn count(&self) -> nat {
        value(self.digits@)
    }

    /// The counter is kept in its canonical decimal form.
    #[verifier::type_invariant]
    spec fn is_canonical(&self) -> bool {
        self.digits@ == decimal(value(self.digits@))
    }

    /// A supply that has handed out nothing yet.
    pub fn new(reserved: String) -> (supply: SymbolGen)
        ensures
            supply.reserved() == reserved@,
            supply.count() == 0,
    {
        let digits: Vec<u8> = vec![0u8];
        proof {
            lemma_value_decimal(0);
            assert(digits@ =~= decimal(0));
        }
        SymbolGen { reserved, digits }
    }

    /// Whether this supply has the prefix of another and has handed out as many names or
    /// more.
    pub fn continues(&self, other: &SymbolGen) -> (r: bool)
        ensures
            r == (self.reserved() == other.reserved() && self.count() >= other.count()),
    {
        proof {
            use_type_invariant(self);
            use_type_invariant(other);
        }
        self.reserved == other.reserved && is_at_least(&self.digits, &other.digits)
    }

    /// Hands out the next name.
    pub fn fresh(&mut self, hint: &str) -> (name: String)
        ensures
            final(self).reserved() == old(self).reserved(),
            final(self).count() == old(self).count() + 1,
            name@ == nth_name(old(self).reserved(), old(self).count(), hint@),
    {
        proof {
            use_type_invariant(&*self);
        }
        let ghost n = self.count();
        let mut name: String = self.reserved.clone();
        let mut i: usize = 0;
        proof {
            lemma_decimal_digits(n);
            assert(name@ =~= self.reserved() + decimal(n).map_values(
                |d: u8| digit_char(d),
            ).take(0));
        }
        while i < self.digits.len()
            invariant
                i <= self.digits.len(),
                self.digits@ == decimal(n),
                forall|j: int| 0 <= j < self.digits.len() ==> #[trigger] self.digits[j] < 10,
                name@ == self.reserved() + decimal(n).map_values(|d: u8| digit_char(d)).take(
                    i as int,
                ),
                self.reserved() == old(self).reserved(),
                self.count() == n,
            decreases self.digits.len() - i,
        {
            let text = digit_text(self.digits[i]);
            name.append(text);
            proof {
                let all = decimal(n).map_values(|d: u8| digit_char(d));
                assert(all.take(i as int + 1) =~= all.take(i as int).push(all[i as int]));
                assert(name@ =~= self.reserved() + all.take(i as int + 1));
            }
            i = i + 1;
        }
        name.append("_");
        name.append(hint);
        proof {
            let all = decimal(n).map_values(|d: u8| digit_char(d));
            assert(all.take(i as int) =~= all);
            reveal_strlit("_");
            assert("_"@ =~= seq!['_']);
        }
        let mut digits = copy_digits(&self.digits);
        increment(&mut digits);
        proof {
            lemma_successor(n);
            lemma_value_decimal(n);
            lemma_value_decimal(n + 1);
        }
        self.digits = digits;
        name
    }
}

impl Clone for SymbolGen {
    /// A supply that hands out the same names from here on.
    fn clone(&self) -> (copy: Self)
        ensures
            copy.reserved() == self.reserved(),
            copy.count() == self.count(),
    {
        proof {
            use_type_invariant(self);
        }
        let digits = copy_digits(&self.digits);
        SymbolGen { reserved: self.reserved.clone(), digits }
    }
}

/// Whether one number is at least another, both in their canonical decimal form.
fn is_at_least(a: &Vec<u8>, b: &Vec<u8>) -> (r: bool)
    requires
        a@ == decimal(value(a@)),
        b@ == decimal(value(b@)),
    ensures
        r == (value(a@) >= value(b@)),
{
    proof {
        lemma_decimal_digits(value(a@));
        lemma_decimal_digits(value(b@));
    }
    if a.len() != b.len() {
        proof {
            if value(a@) <= value(b@) {
                lemma_decimal_len(value(a@), value(b@));
            } else {
                lemma_decimal_len(value(b@), value(a@));
            }
        }
        return a.len() > b.len();
    }
    let mut less = false;
    let mut equal = true;
    let mut i: usize = 0;
    assert(a@.take(0).len() == 0 && b@.take(0).len() == 0);
    while i < a.len()
        invariant
            i <= a.len(),
            a.len() == b.len(),
            forall|j: int| 0 <= j < a.len() ==> #[trigger] a[j] < 10,
            forall|j: int| 0 <= j < b.len() ==> #[trigger] b[j] < 10,
            equal == (value(a@.take(i as int)) == value(b@.take(i as int))),
            less == (value(a@.take(i as int)) < value(b@.take(i as int))),
        decreases a.len() - i,
    {
        proof {
            assert(a@.take(i + 1).drop_last() =~= a@.take(i as int));
            assert(b@.take(i + 1).drop_last() =~= b@.take(i as int));
            assert(a[i as int] < 10 && b[i as int] < 10);
        }
        if equal {
            less = a[i] < b[i];
            equal = a[i] == b[i];
        }
        i = i + 1;
    }
    proof {
        assert(a@.take(i as int) =~= a@);
        assert(b@.take(i as int) =~= b@);
    }
    !less
}

/// A larger number has as many digits or more.
proof fn lemma_decimal_len(n: nat, m: nat)
    requires
        n <= m,
    ensures
        decimal(n).len() <= decimal(m).len(),
    decreases m,
{
    if m >= 10 {
        if n >= 10 {
            lemma_decimal_len(n / 10, m / 10);
        } else {
            assert(decimal(n).len() == 1);
        }
    }
}

fn copy_digits(digits: &Vec<u8>) -> (copy: Vec<u8>)
    ensures
        copy@ == digits@,
{
    let mut copy: Vec<u8> = Vec::new();
    let mut i: usize = 0;
    while i < digits.len()
        invariant
            i <= digits.len(),
            copy@ == digits@.take(i as int),
        decreases digits.len() - i,
    {
        copy.push(digits[i]);
        assert(digits@.take(i + 1) =~= digits@.take(i as int).push(digits[i as int]));
        i = i + 1;
    }
    assert(digits@.take(i as int) =~= digits@);
    copy
}

fn digit_text(digit: u8) -> (text: &'static str)
    requires
        digit < 10,
    ensures
        text@ == seq![digit_char(digit)],
{
    proof {
        reveal_strlit("0");
        reveal_strlit("1");
        reveal_strlit("2");
        reveal_strlit("3");
        reveal_strlit("4");
        reveal_strlit("5");
        reveal_strlit("6");
        reveal_strlit("7");
        reveal_strlit("8");
        reveal_strlit("9");
    }
    let text: &'static str = if digit == 0 {
        "0"
    } else if digit == 1 {
        "1"
    } else if digit == 2 {
        "2"
    } else if digit == 3 {
        "3"
    } else if digit == 4 {
        "4"
    } else if digit == 5 {
        "5"
    } else if digit == 6 {
        "6"
    } else if digit == 7 {
        "7"
    } else if digit == 8 {
        "8"
    } else {
        "9"
    };
    assert(text@ =~= seq![digit_char(digit)]);
    text
}

/// The digits of the next number.
spec fn successor(digits: Seq<u8>) -> Seq<u8>
    decreases digits.len(),
{
    if digits.len() == 0 {
        seq![1u8]
    } else if digits.last() < 9 {
        digits.drop_last().push((digits.last() + 1) as u8)
    } else {
        successor(digits.drop_last()).push(0)
    }
}

fn increment(digits: &mut Vec<u8>)
    ensures
        final(digits)@ == successor(old(digits)@),
    decreases old(digits).len(),
{
    match digits.pop() {
        None => {
            digits.push(1);
            assert(digits@ =~= seq![1u8]);
        },
        Some(d) => {
            assert(digits@ =~= old(digits)@.drop_last());
            if d < 9 {
                digits.push(d + 1);
            } else {
                increment(digits);
                digits.push(0);
            }
        },
    }
}

pub proof fn lemma_decimal_digits(n: nat)
    ensures
        forall|i: int| 0 <= i < decimal(n).len() ==> #[trigger] decimal(n)[i] < 10,
    decreases n,
{
    if n >= 10 {
        lemma_decimal_digits(n / 10);
        let prefix = decimal(n / 10);
        assert forall|i: int| 0 <= i < decimal(n).len() implies #[trigger] decimal(n)[i] < 10 by {
            if i < prefix.len() {
                assert(decimal(n)[i] == prefix[i]);
            }
        }
    }
}

proof fn lemma_value_decimal(n: nat)
    ensures
        value(decimal(n)) == n,
    decreases n,
{
    if n < 10 {
        let d = seq![n as u8];
        assert(d.drop_last() =~= Seq::<u8>::empty());
        assert(value(d.drop_last()) == 0);
    } else {
        lemma_value_decimal(n / 10);
        assert(decimal(n).drop_last() =~= decimal(n / 10));
    }
}

proof fn lemma_successor(n: nat)
    ensures
        successor(decimal(n)) == decimal(n + 1),
    decreases n,
{
    if n < 10 {
        let d = seq![n as u8];
        assert(d.drop_last() =~= Seq::<u8>::empty());
        if n < 9 {
            assert(d.drop_last().push((d.last() + 1) as u8) =~= seq![(n + 1) as u8]);
        } else {
            assert(successor(d.drop_last()) =~= seq![1u8]);
            assert(decimal(1) =~= seq![1u8]);
            assert(decimal(10) == decimal(1).push(0u8));
        }
    } else {
        lemma_successor(n / 10);
        let d = decimal(n);
        assert(d.drop_last() =~= decimal(n / 10));
        if n % 10 < 9 {
            assert((n + 1) / 10 == n / 10);
        } else {
            assert((n + 1) / 10 == n / 10 + 1);
            assert((n + 1) % 10 == 0);
        }
    }
}

/// No two names of a supply are equal, whatever hints they were asked for with.
pub proof fn law_names_are_distinct(
    reserved: Name,
    n: nat,
    first_hint: Name,
    m: nat,
    second_hint: Name,
)
    requires
        n != m,
    ensures
        nth_name(reserved, n, first_hint) != nth_name(reserved, m, second_hint),
{
    let a = decimal(n).map_values(|d: u8| digit_char(d));
    let b = decimal(m).map_values(|d: u8| digit_char(d));
    let left = nth_name(reserved, n, first_hint);
    let right = nth_name(reserved, m, second_hint);
    let r = reserved.len() as int;
    lemma_decimal_digits(n);
    lemma_decimal_digits(m);
    if left == right {
        if a.len() < b.len() {
            assert(left[r + a.len() as int] == '_');
            assert(right[r + a.len() as int] == b[a.len() as int]);
            assert(b[a.len() as int] == digit_char(decimal(m)[a.len() as int]));
            assert(false);
        }
        if b.len() < a.len() {
            assert(right[r + b.len() as int] == '_');
            assert(left[r + b.len() as int] == a[b.len() as int]);
            assert(a[b.len() as int] == digit_char(decimal(n)[b.len() as int]));
            assert(false);
        }
        assert forall|i: int| 0 <= i < a.len() implies decimal(n)[i] == decimal(m)[i] by {
            assert(left[r + i] == a[i]);
            assert(right[r + i] == b[i]);
        }
        assert(decimal(n) =~= decimal(m));
    }
    lemma_value_decimal(n);
    lemma_value_decimal(m);
}

/// The number that a text of decimal digits is read as.
pub open spec fn read_number(text: Seq<char>) -> nat
    decreases text.len(),
{
    if text.len() == 0 {
        0
    } else {
        read_number(text.drop_last()) * 10 + (text.last() as nat - '0' as nat) as nat
    }
}

proof fn lemma_read_digits(digits: Seq<u8>)
    requires
        forall|i: int| 0 <= i < digits.len() ==> #[trigger] digits[i] < 10,
    ensures
        read_number(digits.map_values(|d: u8| digit_char(d))) == value(digits),
    decreases digits.len(),
{
    let text = digits.map_values(|d: u8| digit_char(d));
    if digits.len() > 0 {
        let front = digits.drop_last();
        assert forall|i: int| 0 <= i < front.len() implies #[trigger] front[i] < 10 by {
            assert(digits[i] == front[i]);
        }
        lemma_read_digits(front);
        assert(text.drop_last() =~= front.map_values(|d: u8| digit_char(d)));
        assert(digits[digits.len() - 1] < 10);
        assert(text.last() == digit_char(digits.last()));
    }
}

proof fn lemma_no_leading_zero(n: nat)
    ensures
        decimal(n).len() > 0,
        n > 0 ==> decimal(n)[0] != 0,
        n == 0 ==> decimal(n).len() == 1,
    decreases n,
{
    if n >= 10 {
        lemma_no_leading_zero(n / 10);
    }
}

/// A name of a supply is the reserved prefix, its number in decimal without leading zeros, an
/// underscore and the hint that it was asked for with.
pub proof fn law_names_show_their_number(reserved: Name, n: nat, hint: Name)
    ensures
        exists|digits: Seq<char>|
            {
                &&& #[trigger] read_number(digits) == n
                &&& nth_name(reserved, n, hint) == reserved + digits + seq!['_'] + hint
                &&& digits.len() > 0
                &&& digits.len() > 1 ==> digits[0] != '0'
                &&& forall|i: int| 0 <= i < digits.len() ==> '0' <= #[trigger] digits[i] <= '9'
            },
{
    let digits = decimal(n).map_values(|d: u8| digit_char(d));
    lemma_decimal_digits(n);
    lemma_read_digits(decimal(n));
    lemma_value_decimal(n);
    lemma_no_leading_zero(n);
    assert(digits[0] == digit_char(decimal(n)[0]));
    assert forall|i: int| 0 <= i < digits.len() implies '0' <= #[trigger] digits[i] <= '9' by {
        assert(digits[i] == digit_char(decimal(n)[i]));
    }
    assert(read_number(digits) == n);
}

} // verus!
