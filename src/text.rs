use vstd::prelude::*;
use crate::chars::chars_of;
use crate::value::{
    Decimal, DecimalModel, Json, JsonModel, JsonObject, decimal_model, lemma_models_of, magnitude,
    magnitude_of, models_of,
};

verus! {

broadcast use vstd::std_specs::vec::group_vec_axioms, vstd::seq::group_seq_axioms;

pub open spec fn digit_char(d: int) -> char {
    ((d + 48) as u8) as char
}

/// The decimal digits of `n`, most significant first.
pub open spec fn digits_of(n: nat) -> Seq<char>
    decreases n,
{
    if n < 10 {
        seq![digit_char(n as int)]
    } else {
        digits_of(n / 10).push(digit_char((n % 10) as int))
    }
}

/// An integer in decimal, with a leading `-` when negative.
pub open spec fn int_text(i: int) -> Seq<char> {
    if i < 0 {
        seq!['-'] + digits_of(magnitude(i))
    } else {
        digits_of(magnitude(i))
    }
}

pub open spec fn zeros(n: nat) -> Seq<char> {
    Seq::new(n, |_i: int| '0')
}

/// A decimal number written out in positional notation, always with a fractional part.
/// Given the normalised form, this is the shortest such text for the number.
pub open spec fn decimal_text(d: DecimalModel) -> Seq<char> {
    let sign = if d.negative {
        seq!['-']
    } else {
        Seq::<char>::empty()
    };
    let ds = digits_of(d.digits);
    let k = -d.exponent;
    sign + if k <= 0 {
        ds + zeros((-k) as nat) + seq!['.', '0']
    } else if k < ds.len() {
        ds.take(ds.len() - k) + seq!['.'] + ds.skip(ds.len() - k)
    } else {
        seq!['0', '.'] + zeros((k - ds.len()) as nat) + ds
    }
}

/// The text form of a value: strings as stored, containers with their children
/// comma-joined, object entries as `"key":value`.
pub open spec fn text_of(j: JsonModel) -> Seq<char>
    decreases j,
{
    match j {
        JsonModel::Null => seq!['n', 'u', 'l', 'l'],
        JsonModel::Boolean(b) => if b {
            seq!['t', 'r', 'u', 'e']
        } else {
            seq!['f', 'a', 'l', 's', 'e']
        },
        JsonModel::I64(i) => int_text(i as int),
        JsonModel::Double(d) => decimal_text(d),
        JsonModel::String(s) => s,
        JsonModel::Array(v) => seq!['['] + items_text(v) + seq![']'],
        JsonModel::Object(e) => seq!['{'] + entries_text(e) + seq!['}'],
    }
}

pub open spec fn items_text(s: Seq<JsonModel>) -> Seq<char>
    decreases s,
{
    if s.len() == 0 {
        Seq::empty()
    } else if s.len() == 1 {
        text_of(s[0])
    } else {
        items_text(s.drop_last()) + seq![','] + text_of(s.last())
    }
}

pub open spec fn entries_text(e: Seq<(Seq<char>, JsonModel)>) -> Seq<char>
    decreases e,
{
    if e.len() == 0 {
        Seq::empty()
    } else if e.len() == 1 {
        seq!['"'] + e[0].0 + seq!['"', ':'] + text_of(e[0].1)
    } else {
        entries_text(e.drop_last()) + seq![','] + seq!['"'] + e.last().0 + seq!['"', ':']
            + text_of(e.last().1)
    }
}

fn push_digits(n: u64, out: &mut String)
    ensures
        final(out)@ == old(out)@ + digits_of(n as nat),
    decreases n,
{
    if n >= 10 {
        push_digits(n / 10, out);
    }
    let d = (n % 10) as u8;
    out.push((d + 48) as char);
    proof {
        if n >= 10 {
            assert(digits_of(n as nat) == digits_of((n / 10) as nat).push(digit_char((n % 10) as int)));
        }
    }
    assert(final(out)@ =~= old(out)@ + digits_of(n as nat));
}

fn push_zeros(n: u128, out: &mut String)
    ensures
        final(out)@ == old(out)@ + zeros(n as nat),
{
    let mut i: u128 = 0;
    while i < n
        invariant
            0 <= i <= n,
            out@ == old(out)@ + zeros(i as nat),
        decreases n - i,
    {
        out.push('0');
        i = i + 1;
        assert(zeros(i as nat) =~= zeros((i - 1) as nat).push('0'));
    }
}

fn push_range(cs: &Vec<char>, from: usize, to: usize, out: &mut String)
    requires
        from <= to <= cs@.len(),
    ensures
        final(out)@ == old(out)@ + cs@.subrange(from as int, to as int),
{
    let mut i: usize = from;
    while i < to
        invariant
            from <= i <= to,
            to <= cs@.len(),
            out@ == old(out)@ + cs@.subrange(from as int, i as int),
        decreases to - i,
    {
        out.push(cs[i]);
        i = i + 1;
        assert(cs@.subrange(from as int, i as int) =~= cs@.subrange(from as int, i - 1).push(
            cs@[i - 1],
        ));
    }
}

fn push_decimal(d: Decimal, out: &mut String)
    ensures
        final(out)@ == old(out)@ + decimal_text(decimal_model(d)),
{
    let ghost start = out@;
    let (negative, digits, exponent) = d.normalized();
    let ghost m = decimal_model(d);
    let ghost sign = if negative {
        seq!['-']
    } else {
        Seq::<char>::empty()
    };
    if negative {
        out.push('-');
    }
    assert(out@ =~= start + sign);
    let mut ds = String::new();
    push_digits(digits, &mut ds);
    let cs = chars_of(ds.as_str());
    assert(cs@ =~= digits_of(m.digits));
    let ghost dg = cs@;
    let ghost mid = out@;
    if exponent >= 0 {
        push_range(&cs, 0, cs.len(), out);
        push_zeros(exponent as u128, out);
        out.push('.');
        out.push('0');
        assert(dg.subrange(0, dg.len() as int) =~= dg);
        assert(out@ =~= mid + (dg + zeros(exponent as nat) + seq!['.', '0']));
    } else {
        let k: u128 = (-exponent) as u128;
        if k < (cs.len() as u128) {
            let split = cs.len() - (k as usize);
            push_range(&cs, 0, split, out);
            out.push('.');
            push_range(&cs, split, cs.len(), out);
            assert(dg.subrange(0, split as int) =~= dg.take(split as int));
            assert(dg.subrange(split as int, dg.len() as int) =~= dg.skip(split as int));
            assert(out@ =~= mid + (dg.take(split as int) + seq!['.'] + dg.skip(split as int)));
        } else {
            out.push('0');
            out.push('.');
            push_zeros(k - (cs.len() as u128), out);
            push_range(&cs, 0, cs.len(), out);
            assert(dg.subrange(0, dg.len() as int) =~= dg);
            assert(out@ =~= mid + (seq!['0', '.'] + zeros((k - dg.len()) as nat) + dg));
        }
    }
    assert(out@ =~= start + decimal_text(m));
}

fn push_int(i: i64, out: &mut String)
    ensures
        final(out)@ == old(out)@ + int_text(i as int),
{
    let ghost start = out@;
    if i < 0 {
        out.push('-');
    }
    push_digits(magnitude_of(i), out);
    assert(out@ =~= start + int_text(i as int));
}

fn push_text(j: &Json, out: &mut String)
    ensures
        final(out)@ == old(out)@ + text_of(j@),
    decreases j,
{
    let ghost start = out@;
    match j {
        Json::Null => {
            out.append("null");
            proof {
                reveal_strlit("null");
            }
            assert(out@ =~= start + text_of(j@));
        },
        Json::Boolean(b) => {
            if *b {
                out.append("true");
                proof {
                    reveal_strlit("true");
                }
            } else {
                out.append("false");
                proof {
                    reveal_strlit("false");
                }
            }
            assert(out@ =~= start + text_of(j@));
        },
        Json::I64(i) => push_int(*i, out),
        Json::Double(d) => push_decimal(*d, out),
        Json::String(s) => out.append(s.as_str()),
        Json::Array(v) => {
            out.push('[');
            push_items(v, out);
            out.push(']');
            assert(out@ =~= start + text_of(j@));
        },
        Json::Object(o) => {
            out.push('{');
            push_entries(o, out);
            out.push('}');
            assert(out@ =~= start + text_of(j@));
        },
    }
}

fn push_items(v: &Vec<Json>, out: &mut String)
    ensures
        final(out)@ == old(out)@ + items_text(models_of(v@)),
    decreases v,
{
    let ghost start = out@;
    let ghost m = models_of(v@);
    proof {
        lemma_models_of(v@);
    }
    let mut k: usize = 0;
    assert(m.take(0) =~= Seq::<JsonModel>::empty());
    assert(out@ =~= start + items_text(m.take(0)));
    while k < v.len()
        invariant
            0 <= k <= v@.len(),
            m == models_of(v@),
            m.len() == v@.len(),
            forall|x: int| 0 <= x < v@.len() ==> #[trigger] m[x] == v@[x]@,
            out@ == start + items_text(m.take(k as int)),
        decreases v@.len() - k,
    {
        if k > 0 {
            out.push(',');
        }
        push_text(&v[k], out);
        proof {
            let t = m.take(k + 1);
            assert(t.drop_last() =~= m.take(k as int));
            assert(out@ =~= start + items_text(t));
        }
        k = k + 1;
    }
    assert(m.take(k as int) =~= m);
}

fn push_entries(o: &JsonObject, out: &mut String)
    ensures
        final(out)@ == old(out)@ + entries_text(o@),
    decreases o,
{
    let ghost start = out@;
    let ghost e = o@;
    let mut k: usize = 0;
    let n = o.len();
    assert(e.take(0) =~= Seq::<(Seq<char>, JsonModel)>::empty());
    assert(out@ =~= start + entries_text(e.take(0)));
    while k < n
        invariant
            0 <= k <= n,
            n == e.len(),
            e == o@,
            out@ == start + entries_text(e.take(k as int)),
        decreases n - k,
    {
        if k > 0 {
            out.push(',');
        }
        out.push('"');
        out.append(o.key_at(k).as_str());
        out.push('"');
        out.push(':');
        push_text(o.value_at(k), out);
        proof {
            let t = e.take(k + 1);
            assert(t.drop_last() =~= e.take(k as int));
            assert(out@ =~= start + entries_text(t));
        }
        k = k + 1;
    }
    assert(e.take(k as int) =~= e);
}

impl Json {
    /// The text form of this value.
    pub fn to_text(&self) -> (r: String)
        ensures
            r@ == text_of(self@),
    {
        let mut out = String::new();
        push_text(self, &mut out);
        assert(out@ =~= text_of(self@));
        out
    }
}

} // verus!
