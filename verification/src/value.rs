//! Single values, and which rows of a column hold one.
use crate::error::Error;
use crate::text::{decimal, decimal_string};
use vstd::prelude::*;
use vstd::string::*;

verus! {

/// The type of a column.
#[derive(Debug, Clone, Copy, PartialEq, Eq, Structural)]
pub enum ConcreteDataType {
    Null,
    Int32,
    Binary,
}

/// A value of its own.
#[derive(Debug, PartialEq, Eq)]
pub enum Value {
    Null,
    Int32(i32),
    Binary(Vec<u8>),
}

/// A value that borrows what it holds.
#[derive(Debug, PartialEq, Eq)]
pub enum ValueRef<'a> {
    Null,
    Int32(i32),
    Binary(&'a [u8]),
}

/// The decimal numeral of an integer.
pub open spec fn signed_decimal(n: int) -> Seq<char> {
    if n < 0 {
        "-"@ + decimal((-n) as nat)
    } else {
        decimal(n as nat)
    }
}

/// What is said of an integer that was asked for as bytes.
pub open spec fn not_binary_message(n: int) -> Seq<char> {
    "Failed to cast value ref Int32("@ + signed_decimal(n) + ") to Binary"@
}

impl<'a> ValueRef<'a> {
    /// The bytes of a binary value, or `None` for null. A value of any other type is an error.
    pub fn as_binary(&self) -> (res: Result<Option<&'a [u8]>, Error>)
        ensures
            match *self {
                ValueRef::Null => res == Ok::<Option<&'a [u8]>, Error>(None),
                ValueRef::Binary(bytes) => res == Ok::<Option<&'a [u8]>, Error>(Some(bytes)),
                ValueRef::Int32(n) => res matches Err(Error::CastType { msg }) && msg@
                    == not_binary_message(n as int),
            },
    {
        match self {
            ValueRef::Null => Ok(None),
            ValueRef::Binary(bytes) => Ok(Some(*bytes)),
            ValueRef::Int32(n) => {
                let mut msg = "Failed to cast value ref Int32(".to_owned();
                let wide: i64 = *n as i64;
                let ghost lead = msg@;
                if wide < 0 {
                    msg.append("-");
                    msg.append(decimal_string((-wide) as u64).as_str());
                } else {
                    msg.append(decimal_string(wide as u64).as_str());
                }
                assert(msg@ =~= lead + signed_decimal(*n as int));
                msg.append(") to Binary");
                Err(Error::CastType { msg })
            },
        }
    }
}

/// How many of the bits are not set.
pub open spec fn unset_total(bits: Seq<bool>) -> nat
    decreases bits.len(),
{
    if bits.len() == 0 {
        0
    } else {
        unset_total(bits.drop_last()) + if bits.last() {
            0nat
        } else {
            1
        }
    }
}

/// There are no more unset bits than bits; there is none exactly where all are set, and there
/// are as many as bits exactly where none is set.
pub proof fn lemma_unset_total(bits: Seq<bool>)
    ensures
        unset_total(bits) <= bits.len(),
        unset_total(bits) == 0 <==> forall|i: int| 0 <= i < bits.len() ==> bits[i],
        unset_total(bits) == bits.len() <==> forall|i: int| 0 <= i < bits.len() ==> !bits[i],
    decreases bits.len(),
{
    if bits.len() > 0 {
        let front = bits.drop_last();
        lemma_unset_total(front);
        assert(bits.last() == bits[bits.len() - 1]);
        if forall|i: int| 0 <= i < bits.len() ==> bits[i] {
            assert(forall|i: int| 0 <= i < front.len() ==> front[i]);
        }
        if forall|i: int| 0 <= i < bits.len() ==> !bits[i] {
            assert(forall|i: int| 0 <= i < front.len() ==> !front[i]);
        }
        if forall|i: int| 0 <= i < front.len() ==> front[i] {
            assert(forall|i: int| 0 <= i < front.len() ==> bits[i] == front[i]);
        }
        if forall|i: int| 0 <= i < front.len() ==> !front[i] {
            assert(forall|i: int| 0 <= i < front.len() ==> bits[i] == front[i]);
        }
    }
}

/// Which rows of a column hold a value. Its view has a bit for each row, set where the row is
/// not null.
pub struct Validity {
    bits: Vec<bool>,
    null_count: usize,
}

impl View for Validity {
    type V = Seq<bool>;

    closed spec fn view(&self) -> Seq<bool> {
        self.bits@
    }
}

impl Validity {
    #[verifier::type_invariant]
    spec fn counted(self) -> bool {
        self.null_count == unset_total(self.bits@)
    }

    /// The validity with these bits.
    pub fn from_bits(bits: Vec<bool>) -> (validity: Validity)
        ensures
            validity@ == bits@,
    {
        let mut null_count: usize = 0;
        let mut i: usize = 0;
        while i < bits.len()
            invariant
                i <= bits@.len(),
                null_count <= i,
                null_count == unset_total(bits@.take(i as int)),
            decreases bits@.len() - i,
        {
            assert(bits@.take(i + 1).drop_last() =~= bits@.take(i as int));
            if !bits[i] {
                null_count += 1;
            }
            i += 1;
        }
        assert(bits@.take(i as int) =~= bits@);
        Validity { bits, null_count }
    }

    /// Whether row `i` holds a value.
    pub fn is_set(&self, i: usize) -> (set: bool)
        requires
            i < self@.len(),
        ensures
            set == self@[i as int],
    {
        self.bits[i]
    }

    /// Whether every row holds a value.
    pub fn is_all_valid(&self) -> (all: bool)
        ensures
            all <==> forall|i: int| 0 <= i < self@.len() ==> self@[i],
    {
        proof {
            use_type_invariant(self);
            lemma_unset_total(self@);
        }
        self.null_count == 0
    }

    /// Whether no row holds a value.
    pub fn is_all_null(&self) -> (all: bool)
        ensures
            all <==> forall|i: int| 0 <= i < self@.len() ==> !self@[i],
    {
        proof {
            use_type_invariant(self);
            lemma_unset_total(self@);
        }
        self.null_count == self.bits.len()
    }

    /// How many rows are null.
    pub fn null_count(&self) -> (n: usize)
        ensures
            n == unset_total(self@),
    {
        proof {
            use_type_invariant(self);
        }
        self.null_count
    }
}

/// Bits are counted one by one: a bit that is not set counts as one, one that is set as none, and
/// the counts of two runs of bits add up.
pub proof fn law_unset_bits_are_counted_one_by_one(a: Seq<bool>, b: Seq<bool>)
    ensures
        unset_total(Seq::empty()) == 0,
        unset_total(seq![true]) == 0,
        unset_total(seq![false]) == 1,
        unset_total(a + b) == unset_total(a) + unset_total(b),
    decreases b.len(),
{
    assert(seq![true].drop_last() =~= Seq::empty());
    assert(seq![false].drop_last() =~= Seq::empty());
    assert(unset_total(seq![true].drop_last()) == 0);
    assert(unset_total(seq![false].drop_last()) == 0);
    if b.len() == 0 {
        assert(a + b =~= a);
    } else {
        law_unset_bits_are_counted_one_by_one(a, b.drop_last());
        assert((a + b).drop_last() =~= a + b.drop_last());
    }
}

/// The message about an integer that was asked for as bytes shows the integer, with a minus sign
/// where it is below zero.
pub proof fn law_message_shows_the_integer(n: nat)
    ensures
        not_binary_message(n as int) == "Failed to cast value ref Int32("@ + decimal(n)
            + ") to Binary"@,
        n > 0 ==> not_binary_message(-n) == "Failed to cast value ref Int32("@ + ("-"@ + decimal(n))
            + ") to Binary"@,
{
}

} // verus!
