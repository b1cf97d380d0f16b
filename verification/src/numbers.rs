//! A fixed small sequence of numbers rendered one per line, in decimal.
use vstd::prelude::*;

verus! {

/// The decimal digits of `v`, as bytes, without leading zeros (one digit for
/// values below ten).
pub open spec fn decimal_chars(v: u8) -> Seq<u8> {
    if v < 10 {
        seq![(48 + v) as u8]
    } else if v < 100 {
        seq![(48 + v / 10) as u8, (48 + v % 10) as u8]
    } else {
        seq![(48 + v / 100) as u8, (48 + (v / 10) % 10) as u8, (48 + v % 10) as u8]
    }
}

/// Each value rendered in decimal and followed by a line feed.
pub open spec fn rendered_lines(s: Seq<u8>) -> Seq<u8>
    decreases s.len(),
{
    if s.len() == 0 {
        Seq::empty()
    } else {
        decimal_chars(s[0]) + seq![10u8] + rendered_lines(s.drop_first())
    }
}

proof fn lemma_rendered_lines_snoc(s: Seq<u8>, x: u8)
    ensures
        rendered_lines(s.push(x)) == rendered_lines(s) + decimal_chars(x) + seq![10u8],
    decreases s.len(),
{
    if s.len() == 0 {
        assert(s.push(x).drop_first() =~= Seq::<u8>::empty());
        assert(s.push(x)[0] == x);
        assert(rendered_lines(s) == Seq::<u8>::empty());
        assert(rendered_lines(s.push(x).drop_first()) == Seq::<u8>::empty());
        assert(rendered_lines(s.push(x)) =~= rendered_lines(s) + decimal_chars(x) + seq![10u8]);
    } else {
        assert(s.push(x).drop_first() =~= s.drop_first().push(x));
        lemma_rendered_lines_snoc(s.drop_first(), x);
        assert(rendered_lines(s.push(x)) =~= rendered_lines(s) + decimal_chars(x) + seq![10u8]);
    }
}

/// Appends the decimal digits of `v` to `out`.
fn push_decimal(out: &mut Vec<u8>, v: u8)
    ensures
        final(out)@ == old(out)@ + decimal_chars(v),
{
    if v >= 100 {
        out.push(48 + v / 100);
        out.push(48 + (v / 10) % 10);
        out.push(48 + v % 10);
        proof {
            assert(final(out)@ =~= old(out)@ + decimal_chars(v));
        }
    } else if v >= 10 {
        out.push(48 + v / 10);
        out.push(48 + v % 10);
        proof {
            assert(final(out)@ =~= old(out)@ + decimal_chars(v));
        }
    } else {
        out.push(48 + v);
        proof {
            assert(final(out)@ =~= old(out)@ + decimal_chars(v));
        }
    }
}

/// Renders each value on a line of its own, in order.
pub fn output_sequence(numbers: &Vec<u8>) -> (out: Vec<u8>)
    ensures
        out@ == rendered_lines(numbers@),
{
    let mut out: Vec<u8> = Vec::new();
    let mut i: usize = 0;
    while i < numbers.len()
        invariant
            i <= numbers.len(),
            out@ == rendered_lines(numbers@.take(i as int)),
        decreases numbers.len() - i,
    {
        push_decimal(&mut out, numbers[i]);
        out.push(10);
        proof {
            assert(numbers@.take(i as int + 1) =~= numbers@.take(i as int).push(numbers@[i as int]));
            lemma_rendered_lines_snoc(numbers@.take(i as int), numbers@[i as int]);
        }
        i += 1;
    }
    proof {
        assert(numbers@.take(numbers@.len() as int) =~= numbers@);
    }
    out
}

/// Renders the sequence 1 through 5, one number per line.
pub fn print() -> (out: Vec<u8>)
    ensures
        out@ == rendered_lines(seq![1u8, 2u8, 3u8, 4u8, 5u8]),
{
    let numbers: Vec<u8> = vec![1, 2, 3, 4, 5];
    proof {
        assert(numbers@ =~= seq![1u8, 2u8, 3u8, 4u8, 5u8]);
    }
    output_sequence(&numbers)
}

} // verus!
