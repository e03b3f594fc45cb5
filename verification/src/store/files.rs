//! Names of the store's table files: `sst_` and the table index in decimal,
//! zero-padded to five digits, then `.db`.

use vstd::prelude::*;
use crate::bridge::{decimal, push_decimal};
use crate::text::{chars_of, ends_with_chars, push_char, starts_with_chars, string_of};

verus! {

/// The decimal digits of `n`, zero-padded on the left to at least five.
pub open spec fn padded_decimal(n: nat) -> Seq<char> {
    let d = decimal(n);
    if d.len() < 5 {
        Seq::new((5 - d.len()) as nat, |i: int| '0') + d
    } else {
        d
    }
}

/// The name of the table file with index `idx`.
pub open spec fn table_file_name_of(idx: u32) -> Seq<char> {
    "sst_"@ + padded_decimal(idx as nat) + ".db"@
}

/// Whether every character of `s` is a decimal digit.
pub open spec fn all_digits(s: Seq<char>) -> bool {
    forall|i: int| 0 <= i < s.len() ==> '0' <= #[trigger] s[i] <= '9'
}

/// The number that the decimal digits `s` spell.
pub open spec fn digits_value(s: Seq<char>) -> nat
    decreases s.len(),
{
    if s.len() == 0 {
        0
    } else {
        digits_value(s.drop_last()) * 10 + (s.last() as nat - '0' as nat) as nat
    }
}

/// What `u32::from_str` gives for `s`: an optional `+`, then at least one
/// decimal digit and nothing else, with a value that fits in a `u32`.
pub open spec fn parsed_u32(s: Seq<char>) -> Option<u32> {
    let d = if s.len() > 0 && s[0] == '+' { s.drop_first() } else { s };
    if d.len() > 0 && all_digits(d) && digits_value(d) <= u32::MAX {
        Some(digits_value(d) as u32)
    } else {
        None
    }
}

/// The table index that a file name gives: the part between `sst_` and
/// `.db`, read as a `u32`; `None` for any other name.
pub open spec fn table_index_of_name(name: Seq<char>) -> Option<u32> {
    if name.len() >= 7 && name.take(4) == "sst_"@ && name.skip(name.len() - 3) == ".db"@ {
        parsed_u32(name.subrange(4, name.len() - 3))
    } else {
        None
    }
}

/// The name of the table file with index `idx`.
pub fn table_file_name(idx: u32) -> (name: String)
    ensures
        name@ == table_file_name_of(idx),
{
    let mut digits = String::new();
    push_decimal(&mut digits, idx as u64);
    assert(digits@ == decimal(idx as nat));
    let mut name = String::from_str("sst_");
    let n = digits.unicode_len();
    let mut k = n;
    let ghost start = name@;
    while k < 5
        invariant
            n <= k <= 5 || (n > 5 && k == n),
            name@ == start + Seq::new((k - n) as nat, |i: int| '0'),
        decreases 5 - k,
    {
        push_char(&mut name, '0');
        assert(start + Seq::new((k + 1 - n) as nat, |i: int| '0') =~= (start + Seq::new(
            (k - n) as nat,
            |i: int| '0',
        )).push('0'));
        k = k + 1;
    }
    name.append(digits.as_str());
    name.append(".db");
    proof {
        if n < 5 {
            assert(name@ =~= table_file_name_of(idx));
        } else {
            assert(Seq::new((k - n) as nat, |i: int| '0') =~= Seq::<char>::empty());
            assert(name@ =~= table_file_name_of(idx));
        }
    }
    name
}

/// The name of the file that compaction writes its table to before the old
/// tables are removed. It is no table file name, so reopening never reads it.
pub fn compaction_file_name() -> (name: String)
    ensures
        name@ == "sst_compaction.tmp"@,
        table_index_of_name(name@) is None,
{
    let name = String::from_str("sst_compaction.tmp");
    proof {
        reveal_strlit("sst_compaction.tmp");
        reveal_strlit(".db");
        let n = name@;
        assert(n.skip(n.len() - 3)[0] == 't');
        assert(".db"@[0] == '.');
    }
    name
}

proof fn lemma_digits_prefix(s: Seq<char>, k: int)
    requires
        0 <= k <= s.len(),
        all_digits(s),
    ensures
        digits_value(s.take(k)) <= digits_value(s),
    decreases s.len(),
{
    if k < s.len() {
        let p = s.drop_last();
        assert(all_digits(p)) by {
            assert forall|i: int| 0 <= i < p.len() implies '0' <= #[trigger] p[i] <= '9' by {
                assert(p[i] == s[i]);
            }
        }
        lemma_digits_prefix(p, k);
        assert(p.take(k) =~= s.take(k));
    } else {
        assert(s.take(k) =~= s);
    }
}

/// The `u32` that `s` spells, as `u32::from_str` reads it.
pub fn parse_u32(s: &str) -> (res: Option<u32>)
    ensures
        res == parsed_u32(s@),
{
    let cs = chars_of(s);
    let start: usize = if cs.len() > 0 && cs[0] == '+' {
        1
    } else {
        0
    };
    let ghost d = if cs@.len() > 0 && cs@[0] == '+' { cs@.drop_first() } else { cs@ };
    assert(d =~= cs@.skip(start as int));
    if start == cs.len() {
        return None;
    }
    let mut v: u64 = 0;
    let mut i = start;
    assert(cs@.subrange(start as int, start as int) =~= Seq::<char>::empty());
    while i < cs.len()
        invariant
            start <= i <= cs@.len(),
            cs@ == s@,
            d == cs@.skip(start as int),
            d == (if cs@.len() > 0 && cs@[0] == '+' { cs@.drop_first() } else { cs@ }),
            v == digits_value(cs@.subrange(start as int, i as int)),
            v <= u32::MAX,
            all_digits(cs@.subrange(start as int, i as int)),
        decreases cs.len() - i,
    {
        let c = cs[i];
        let ghost pre = cs@.subrange(start as int, i as int);
        let ghost next = cs@.subrange(start as int, i + 1);
        assert(next.drop_last() =~= pre);
        assert(next.last() == c);
        assert(d[i - start] == c);
        if c < '0' || c > '9' {
            assert(!all_digits(d));
            assert(parsed_u32(cs@) is None);
            return None;
        }
        let digit = ((c as u32) - ('0' as u32)) as u64;
        let nv = v * 10 + digit;
        assert(nv == digits_value(next));
        assert(all_digits(next)) by {
            assert forall|j: int| 0 <= j < next.len() implies '0' <= #[trigger] next[j] <= '9' by {
                if j < pre.len() {
                    assert(next[j] == pre[j]);
                }
            }
        }
        if nv > u32::MAX as u64 {
            proof {
                if all_digits(d) {
                    assert(d.take(i + 1 - start) =~= next);
                    lemma_digits_prefix(d, i + 1 - start);
                }
                assert(parsed_u32(cs@) is None);
            }
            return None;
        }
        v = nv;
        i = i + 1;
    }
    assert(cs@.subrange(start as int, cs@.len() as int) =~= d);
    Some(v as u32)
}

/// The table index that a file name gives, as `table_index_of_name` says.
pub fn table_file_index(name: &str) -> (res: Option<u32>)
    ensures
        res == table_index_of_name(name@),
{
    let cs = chars_of(name);
    let suffix = chars_of(".db");
    if cs.len() >= 7 && starts_with_chars(&cs, "sst_") && ends_with_chars(&cs, &suffix) {
        proof {
            reveal_strlit("sst_");
            reveal_strlit(".db");
        }
        let middle = string_of(&cs, 4, cs.len() - 3);
        parse_u32(middle.as_str())
    } else {
        proof {
            reveal_strlit("sst_");
            reveal_strlit(".db");
        }
        None
    }
}

proof fn lemma_decimal(n: nat)
    ensures
        decimal(n).len() > 0,
        all_digits(decimal(n)),
        digits_value(decimal(n)) == n,
    decreases n,
{
    if n >= 10 {
        lemma_decimal(n / 10);
        let d = decimal(n);
        let p = decimal(n / 10);
        assert(d.drop_last() =~= p);
        assert forall|i: int| 0 <= i < d.len() implies '0' <= #[trigger] d[i] <= '9' by {
            if i < p.len() {
                assert(d[i] == p[i]);
            }
        }
        assert(n == (n / 10) * 10 + n % 10);
        assert(digits_value(p) == n / 10);
        let c = ('0' as int + n % 10) as char;
        assert(c as nat == '0' as nat + n % 10);
        assert(d.last() == c);
        assert(digits_value(d) == digits_value(p) * 10 + (c as nat - '0' as nat) as nat);
    } else {
        let c = ('0' as int + n) as char;
        assert(c as nat == '0' as nat + n);
        assert(decimal(n) == seq![c]);
        assert(decimal(n).drop_last() =~= Seq::<char>::empty());
        assert(digits_value(Seq::<char>::empty()) == 0);
        assert(decimal(n).last() == c);
    }
}

proof fn lemma_leading_zeros(z: nat, d: Seq<char>)
    ensures
        digits_value(Seq::new(z, |i: int| '0') + d) == digits_value(d),
        all_digits(d) ==> all_digits(Seq::new(z, |i: int| '0') + d),
    decreases d.len(), z,
{
    let zs = Seq::new(z, |i: int| '0');
    if d.len() > 0 {
        lemma_leading_zeros(z, d.drop_last());
        assert((zs + d).drop_last() =~= zs + d.drop_last());
        assert((zs + d).last() == d.last());
        if all_digits(d) {
            assert(all_digits(d.drop_last())) by {
                assert forall|i: int| 0 <= i < d.drop_last().len() implies '0' <= #[trigger] d.drop_last()[i] <= '9' by {
                    assert(d.drop_last()[i] == d[i]);
                }
            }
            assert forall|i: int| 0 <= i < (zs + d).len() implies '0' <= #[trigger] (zs + d)[i] <= '9' by {
                if i >= zs.len() {
                    assert((zs + d)[i] == d[i - zs.len()]);
                }
            }
        }
    } else {
        assert(zs + d =~= zs);
        if z > 0 {
            lemma_leading_zeros((z - 1) as nat, d);
            assert(zs.drop_last() =~= Seq::new((z - 1) as nat, |i: int| '0'));
            assert(Seq::new((z - 1) as nat, |i: int| '0') + d =~= Seq::new((z - 1) as nat, |i: int| '0'));
        }
    }
}

/// Reading the index back from a table file's name gives the index it was
/// named with.
pub proof fn law_table_file_name(idx: u32)
    ensures
        table_index_of_name(table_file_name_of(idx)) == Some(idx),
{
    reveal_strlit("sst_");
    reveal_strlit(".db");
    let n = idx as nat;
    let d = decimal(n);
    lemma_decimal(n);
    let p = padded_decimal(n);
    if d.len() < 5 {
        lemma_leading_zeros((5 - d.len()) as nat, d);
    }
    assert(p.len() > 0 && all_digits(p) && digits_value(p) == n);
    let name = table_file_name_of(idx);
    assert(name.take(4) =~= "sst_"@);
    assert(name.skip(name.len() - 3) =~= ".db"@);
    assert(name.subrange(4, name.len() - 3) =~= p);
    assert(p[0] != '+');
}

} // verus!
