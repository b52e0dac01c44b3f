//! The names of segment files: `data_{id}.txt`, where `{id}` is the id in
//! decimal, without sign and without leading zeros.

use vstd::prelude::*;
use vstd::string::StringExecFns;

verus! {

/// The character of the digit `d`.
pub open spec fn digit_char(d: int) -> char {
    if d == 0 {
        '0'
    } else if d == 1 {
        '1'
    } else if d == 2 {
        '2'
    } else if d == 3 {
        '3'
    } else if d == 4 {
        '4'
    } else if d == 5 {
        '5'
    } else if d == 6 {
        '6'
    } else if d == 7 {
        '7'
    } else if d == 8 {
        '8'
    } else {
        '9'
    }
}

/// `n` in decimal.
pub open spec fn decimal(n: nat) -> Seq<char>
    decreases n,
{
    if n < 10 {
        seq![digit_char(n as int)]
    } else {
        decimal(n / 10).push(digit_char((n % 10) as int))
    }
}

/// `data_`
pub open spec fn name_prefix() -> Seq<char> {
    seq!['d', 'a', 't', 'a', '_']
}

/// `.txt`
pub open spec fn name_suffix() -> Seq<char> {
    seq!['.', 't', 'x', 't']
}

/// The name of the file that holds the segment `id`.
pub open spec fn segment_name(id: u64) -> Seq<char> {
    name_prefix() + decimal(id as nat) + name_suffix()
}

/// Whether `c` is one of the ten digits.
pub open spec fn is_digit(c: char) -> bool {
    '0' <= c <= '9'
}

/// The number that a sequence of digits stands for.
pub open spec fn digits_value(s: Seq<char>) -> nat
    decreases s.len(),
{
    if s.len() == 0 {
        0
    } else {
        (digits_value(s.drop_last()) * 10 + (s.last() as int - 48)) as nat
    }
}

/// Digits, at least one, with no zero in front of another digit.
pub open spec fn canonical(s: Seq<char>) -> bool {
    &&& s.len() >= 1
    &&& forall|i: int| 0 <= i < s.len() ==> is_digit(#[trigger] s[i])
    &&& s.len() > 1 ==> s[0] != '0'
}

/// The decimal form of a number is canonical and stands for that number.
pub proof fn lemma_decimal_canonical(n: nat)
    ensures
        canonical(decimal(n)),
        digits_value(decimal(n)) == n,
        n > 0 ==> decimal(n)[0] != '0',
    decreases n,
{
    if n < 10 {
        let s = decimal(n);
        assert(s.drop_last() =~= Seq::<char>::empty());
        assert(digits_value(s.drop_last()) == 0);
    } else {
        lemma_decimal_canonical(n / 10);
        let p = decimal(n / 10);
        let s = decimal(n);
        assert(s.drop_last() =~= p);
        assert(s[0] == p[0]);
    }
}

/// Canonical digits are the decimal form of the number they stand for.
pub proof fn lemma_canonical_decimal(s: Seq<char>)
    requires
        canonical(s),
    ensures
        decimal(digits_value(s)) == s,
        s.len() > 1 ==> digits_value(s) >= 10,
        s[0] != '0' ==> digits_value(s) >= 1,
    decreases s.len(),
{
    let d = s.last() as int - 48;
    if s.len() == 1 {
        assert(s.drop_last() =~= Seq::<char>::empty());
        assert(digits_value(s.drop_last()) == 0);
        assert(digits_value(s) == d);
        assert(decimal(d as nat) =~= s);
    } else {
        let p = s.drop_last();
        assert(canonical(p)) by {
            assert forall|i: int| 0 <= i < p.len() implies is_digit(#[trigger] p[i]) by {
                assert(p[i] == s[i]);
            }
            assert(p[0] == s[0]);
        }
        lemma_canonical_decimal(p);
        let v = digits_value(p);
        assert(v >= 1);
        assert(digits_value(s) == v * 10 + d);
        assert((v * 10 + d) / 10 == v && (v * 10 + d) % 10 == d);
        assert(decimal((v * 10 + d) as nat) =~= s);
    }
}

/// The digits of a segment's file name stand between its fifth character
/// and its last four.
pub proof fn lemma_middle_of_name(id: u64)
    ensures
        segment_name(id).len() == decimal(id as nat).len() + 9,
        segment_name(id).subrange(5, segment_name(id).len() - 4) == decimal(id as nat),
        segment_name(id).subrange(0, 5) == name_prefix(),
        segment_name(id).subrange(segment_name(id).len() - 4, segment_name(id).len() as int)
            == name_suffix(),
{
    let s = segment_name(id);
    let d = decimal(id as nat);
    assert(s.subrange(5, s.len() - 4) =~= d);
    assert(s.subrange(0, 5) =~= name_prefix());
    assert(s.subrange(s.len() - 4, s.len() as int) =~= name_suffix());
}

/// What a name says about the segment it belongs to: the digits between
/// `data_` and `.txt` are canonical and stand for an id that fits in 64 bits.
pub open spec fn is_segment_name(name: Seq<char>) -> bool {
    &&& name.len() >= 10
    &&& name.subrange(0, 5) == name_prefix()
    &&& name.subrange(name.len() - 4, name.len() as int) == name_suffix()
    &&& canonical(name.subrange(5, name.len() - 4))
    &&& digits_value(name.subrange(5, name.len() - 4)) <= u64::MAX
}

/// The id in a segment's file name.
pub open spec fn name_id(name: Seq<char>) -> u64 {
    digits_value(name.subrange(5, name.len() - 4)) as u64
}

/// The id of the segment that the file `name` holds, if it holds one.
pub open spec fn parse_name(name: Seq<char>) -> Option<u64> {
    if is_segment_name(name) {
        Some(name_id(name))
    } else {
        None
    }
}

/// A name belongs to the segment `id` exactly when it is `data_{id}.txt`.
pub proof fn lemma_parse_name(name: Seq<char>, id: u64)
    ensures
        parse_name(name) == Some(id) <==> name == segment_name(id),
{
    if name == segment_name(id) {
        lemma_middle_of_name(id);
        lemma_decimal_canonical(id as nat);
    }
    if parse_name(name) == Some(id) {
        let m = name.subrange(5, name.len() - 4);
        lemma_canonical_decimal(m);
        assert(name =~= name.subrange(0, 5) + m + name.subrange(
            name.len() - 4,
            name.len() as int,
        ));
    }
}

/// The digits up to a point stand for no more than all the digits.
proof fn lemma_digits_value_grows(s: Seq<char>, j: int)
    requires
        0 <= j <= s.len(),
        forall|i: int| 0 <= i < s.len() ==> is_digit(#[trigger] s[i]),
    ensures
        digits_value(s.take(j)) <= digits_value(s),
    decreases s.len() - j,
{
    if j < s.len() {
        let t = s.take(j + 1);
        assert(t.drop_last() =~= s.take(j));
        assert(is_digit(s[j]));
        assert(t.last() == s[j]);
        assert(digits_value(t) == digits_value(s.take(j)) * 10 + (s[j] as int - 48));
        lemma_digits_value_grows(s, j + 1);
    } else {
        assert(s.take(j) =~= s);
    }
}

/// The byte of an ASCII character is its number.
proof fn lemma_ascii_byte(c: char, b: u8)
    requires
        (c as nat) < 128,
        b == c as u8,
    ensures
        b as int == c as int,
        is_digit(c) <==> 48 <= b <= 57,
{
    assert(c as u32 as int == c as int);
    assert(c as u8 == (c as u32) as u8);
}

/// Reads the id out of a segment's file name. `None` for any other name.
pub fn parse_segment_name(name: &str) -> (r: Option<u64>)
    ensures
        r == parse_name(name@),
{
    if !name.is_ascii() {
        proof {
            if is_segment_name(name@) {
                let m = name@.subrange(5, name@.len() - 4);
                assert forall|i: int| 0 <= i < name@.len() implies '\0' <= #[trigger] name@[i]
                    <= '\u{7f}' by {
                    if i < 5 {
                        assert(name@.subrange(0, 5)[i] == name@[i]);
                    } else if i < name@.len() - 4 {
                        assert(is_digit(m[i - 5]));
                    } else {
                        assert(name@.subrange(name@.len() - 4, name@.len() as int)[i - (
                        name@.len() - 4)] == name@[i]);
                    }
                }
            }
        }
        return None;
    }
    let bytes = name.as_bytes();
    let len = bytes.len();
    proof {
        vstd::string::is_ascii_spec_bytes(name);
        vstd::utf8::is_ascii_chars_nat_bound(name@);
    }
    assert(len == name@.len());
    assert(forall|i: int| 0 <= i < len ==> bytes@[i] == #[trigger] name@[i] as u8);
    if len < 10 {
        return None;
    }
    if bytes[0] != 100u8 || bytes[1] != 97u8 || bytes[2] != 116u8 || bytes[3] != 97u8 || bytes[4]
        != 95u8 {
        proof {
            let p = name@.subrange(0, 5);
            assert(p[0] == name@[0] && p[1] == name@[1] && p[2] == name@[2] && p[3] == name@[3]
                && p[4] == name@[4]);
        }
        return None;
    }
    if bytes[len - 4] != 46u8 || bytes[len - 3] != 116u8 || bytes[len - 2] != 120u8 || bytes[len
        - 1] != 116u8 {
        proof {
            let p = name@.subrange(len - 4, len as int);
            assert(p[0] == name@[len - 4] && p[1] == name@[len - 3] && p[2] == name@[len - 2]
                && p[3] == name@[len - 1]);
        }
        return None;
    }
    assert(name@.subrange(0, 5) =~= name_prefix());
    assert(name@.subrange(len - 4, len as int) =~= name_suffix());
    let ghost m = name@.subrange(5, len - 4);
    if len > 10 && bytes[5] == 48u8 {
        assert(m[0] == name@[5]);
        return None;
    }
    let mut value: u64 = 0;
    let mut i: usize = 5;
    while i < len - 4
        invariant
            5 <= i <= len - 4,
            len == name@.len(),
            len == bytes@.len(),
            len >= 10,
            m == name@.subrange(5, len - 4),
            forall|k: int| 0 <= k < len ==> bytes@[k] == #[trigger] name@[k] as u8,
            forall|k: int| 0 <= k < len ==> (#[trigger] name@[k] as nat) < 128,
            forall|k: int| 0 <= k < i - 5 ==> is_digit(#[trigger] m[k]),
            value == digits_value(m.take(i - 5)),
        decreases len - i,
    {
        let b = bytes[i];
        let ghost c = name@[i as int];
        assert(m[i - 5] == c);
        assert((c as nat) < 128);
        proof {
            lemma_ascii_byte(c, b);
        }
        if b < 48u8 || b > 57u8 {
            return None;
        }
        let d: u64 = (b - 48u8) as u64;
        proof {
            let t = m.take(i - 5 + 1);
            assert(t.drop_last() =~= m.take(i - 5));
            assert(t.last() == m[i - 5]);
            assert(digits_value(t) == value * 10 + d);
            if is_segment_name(name@) {
                lemma_digits_value_grows(m, i - 5 + 1);
            }
        }
        if value > (u64::MAX - d) / 10 {
            return None;
        }
        value = value * 10 + d;
        i = i + 1;
    }
    assert(m.take(len - 4 - 5) =~= m);
    assert(m[0] == name@[5]);
    Some(value)
}

/// The text of one digit.
fn digit_text(d: u64) -> (s: &'static str)
    requires
        d < 10,
    ensures
        s@ == seq![digit_char(d as int)],
{
    proof {
        reveal_strlit("0");
        reveal_strlit("1");
        reveal_strlit("2");
        reveal_strlit("3");
        reveal_strlit("4");
        reveal_strlit("5");
        reveal_strlit("6");
        reveal_strlit("7");
        reveal_strlit("8");
        reveal_strlit("9");
    }
    let s = if d == 0 {
        "0"
    } else if d == 1 {
        "1"
    } else if d == 2 {
        "2"
    } else if d == 3 {
        "3"
    } else if d == 4 {
        "4"
    } else if d == 5 {
        "5"
    } else if d == 6 {
        "6"
    } else if d == 7 {
        "7"
    } else if d == 8 {
        "8"
    } else {
        "9"
    };
    assert(s@ =~= seq![digit_char(d as int)]);
    s
}

/// Writes `n` in decimal.
pub fn decimal_string(n: u64) -> (s: String)
    ensures
        s@ == decimal(n as nat),
    decreases n,
{
    if n < 10 {
        digit_text(n).to_owned()
    } else {
        let mut s = decimal_string(n / 10);
        s.append(digit_text(n % 10));
        assert(s@ =~= decimal(n as nat));
        s
    }
}

/// The name of the file that holds the segment `id`.
pub fn segment_file_name(id: u64) -> (s: String)
    ensures
        s@ == segment_name(id),
{
    proof {
        reveal_strlit("data_");
        reveal_strlit(".txt");
    }
    let mut s = "data_".to_owned();
    assert(s@ =~= name_prefix());
    let digits = decimal_string(id);
    s.append(digits.as_str());
    s.append(".txt");
    assert(".txt"@ =~= name_suffix());
    s
}

/// A list of names as a mathematical value.
pub open spec fn names_view(names: Seq<String>) -> Seq<Seq<char>> {
    Seq::new(names.len(), |i: int| names[i]@)
}

/// The ids of the names that are segment names, in the order of the names.
pub open spec fn valid_ids(names: Seq<Seq<char>>) -> Seq<u64>
    decreases names.len(),
{
    if names.len() == 0 {
        Seq::empty()
    } else {
        match parse_name(names.last()) {
            Some(id) => valid_ids(names.drop_last()).push(id),
            None => valid_ids(names.drop_last()),
        }
    }
}

/// The valid ids of a list of names are those of its first name and of
/// the names behind it.
pub proof fn lemma_valid_ids_first(names: Seq<Seq<char>>)
    requires
        names.len() > 0,
    ensures
        valid_ids(names).to_multiset() == match parse_name(names.first()) {
            Some(id) => valid_ids(names.drop_first()).to_multiset().insert(id),
            None => valid_ids(names.drop_first()).to_multiset(),
        },
    decreases names.len(),
{
    let front = names.drop_last();
    let tail = names.drop_first();
    if names.len() == 1 {
        assert(front =~= Seq::<Seq<char>>::empty());
        assert(tail =~= Seq::<Seq<char>>::empty());
        assert(names.last() == names.first());
        match parse_name(names.first()) {
            Some(id) => {
                vstd::seq_lib::to_multiset_build(valid_ids(front), id);
            },
            None => {},
        }
    } else {
        lemma_valid_ids_first(front);
        assert(front.drop_first() =~= tail.drop_last());
        assert(front.first() == names.first());
        assert(tail.last() == names.last());
        let inner = valid_ids(tail.drop_last());
        match parse_name(names.last()) {
            Some(last) => {
                vstd::seq_lib::to_multiset_build(valid_ids(front), last);
                vstd::seq_lib::to_multiset_build(inner, last);
                match parse_name(names.first()) {
                    Some(id) => {
                        assert(inner.to_multiset().insert(id).insert(last)
                            =~= inner.to_multiset().insert(last).insert(id));
                    },
                    None => {},
                }
            },
            None => {},
        }
    }
}

/// No id is above one that follows it.
pub open spec fn sorted(ids: Seq<u64>) -> bool {
    forall|i: int, j: int| 0 <= i <= j < ids.len() ==> ids[i] <= ids[j]
}

/// The segment ids among the names of a directory, in ascending order. A
/// name that is no segment name is ignored.
pub fn sorted_ids(names: &Vec<String>) -> (ids: Vec<u64>)
    ensures
        sorted(ids@),
        ids@.to_multiset() == valid_ids(names_view(names@)).to_multiset(),
{
    let ghost all = names_view(names@);
    let mut ids: Vec<u64> = Vec::new();
    let mut i: usize = 0;
    assert(all.take(0) =~= Seq::<Seq<char>>::empty());
    while i < names.len()
        invariant
            i <= names@.len(),
            all == names_view(names@),
            sorted(ids@),
            ids@.to_multiset() == valid_ids(all.take(i as int)).to_multiset(),
        decreases names@.len() - i,
    {
        proof {
            assert(all.take(i + 1).drop_last() =~= all.take(i as int));
            assert(all.take(i + 1).last() == names@[i as int]@);
        }
        match parse_segment_name(names[i].as_str()) {
            Some(id) => {
                let mut p: usize = 0;
                while p < ids.len() && ids[p] < id
                    invariant
                        p <= ids@.len(),
                        forall|k: int| 0 <= k < p ==> ids@[k] < id,
                    decreases ids@.len() - p,
                {
                    p = p + 1;
                }
                let ghost before = ids@;
                ids.insert(p, id);
                proof {
                    vstd::seq_lib::to_multiset_insert(before, p as int, id);
                    vstd::seq_lib::to_multiset_build(valid_ids(all.take(i as int)), id);
                    assert forall|a: int, b: int| 0 <= a <= b < ids@.len() implies ids@[a]
                        <= ids@[b] by {
                        if a < p && b > p {
                            assert(before[a] <= before[b - 1]);
                        } else if a > p {
                            assert(before[a - 1] <= before[b - 1]);
                        } else if b < p {
                            assert(before[a] <= before[b]);
                        } else if a == p && b > p {
                            assert(before[p as int] <= before[b - 1]);
                        }
                    }
                }
            },
            None => {},
        }
        i = i + 1;
    }
    assert(all.take(i as int) =~= all);
    ids
}

} // verus!
