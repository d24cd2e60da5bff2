//! The universe of cores and the per-core decisions.
//!
//! Discovery reads nothing itself: the surrounding process lists the
//! per-core control directories and hands the entry names in; this module
//! decides which names denote cores and in which order their indices make
//! up the universe.  It also fixes the status values a mutation writes and
//! which requested indices a mutation touches at all.

use vstd::prelude::*;

verus! {

use crate::order::{sort_u32, sort_cores, lemma_sort_u32_ensures};
use crate::ranges::{is_digit, is_number_str, dec_val, digit_value, parse_u32};

/// A directory name of the fixed core-naming pattern: `cpu` followed by
/// one or more decimal digits.
pub open spec fn is_cpu_name(s: Seq<char>) -> bool {
    s.len() >= 4 && s[0] == 'c' && s[1] == 'p' && s[2] == 'u' && is_number_str(s.skip(3))
}

/// The numeric suffix of a core directory name.
pub open spec fn cpu_name_num(s: Seq<char>) -> nat {
    dec_val(s.skip(3))
}

/// The core indices read off a list of directory names, in input order:
/// one entry per name of the core pattern whose suffix fits a `u32`.
pub open spec fn core_nums_of(names: Seq<Seq<char>>) -> Seq<u32>
    decreases names.len(),
{
    if names.len() == 0 {
        Seq::<u32>::empty()
    } else {
        let rest = core_nums_of(names.drop_last());
        let last = names.last();
        if is_cpu_name(last) && cpu_name_num(last) <= u32::MAX {
            rest.push((cpu_name_num(last) as u32))
        } else {
            rest
        }
    }
}

/// The discovered universe: the indices read off the names, sorted
/// ascending.
pub open spec fn discovered_cores(names: Seq<Seq<char>>) -> Seq<u32> {
    sort_u32(core_nums_of(names))
}

/// Whether a directory name is of the core pattern.
pub fn is_cpu_dir_name(s: &str) -> (r: bool)
    ensures
        r == is_cpu_name(s@),
{
    let n = s.unicode_len();
    if n < 4 {
        return false;
    }
    if s.get_char(0) != 'c' {
        return false;
    }
    if s.get_char(1) != 'p' {
        return false;
    }
    if s.get_char(2) != 'u' {
        return false;
    }
    let mut i: usize = 3;
    while i < n
        invariant
            3 <= i <= n,
            n == s@.len(),
            forall|j: int| 3 <= j < i ==> is_digit(#[trigger] s@[j]),
        decreases n - i,
    {
        let c = s.get_char(i);
        if c < '0' || c > '9' {
            assert(!is_digit(s@[i as int]));
            assert(s@.skip(3)[i - 3] == s@[i as int]);
            return false;
        }
        i = i + 1;
    }
    proof {
        assert forall|j: int| 0 <= j < s@.skip(3).len() implies is_digit(#[trigger] s@.skip(3)[j]) by {
            assert(s@.skip(3)[j] == s@[j + 3]);
        }
    }
    true
}

/// Reads the universe of core indices off the control directory's entry
/// names: one index per name of the core pattern, sorted ascending.
pub fn extract_core_nums(names: &Vec<String>) -> (r: Vec<u32>)
    ensures
        r@ == discovered_cores(names.deep_view()),
{
    let mut nums: Vec<u32> = Vec::new();
    let mut i: usize = 0;
    while i < names.len()
        invariant
            i <= names@.len(),
            names.deep_view().len() == names@.len(),
            nums@ == core_nums_of(names.deep_view().take(i as int)),
        decreases names@.len() - i,
    {
        let name: &String = &names[i];
        proof {
            assert(names.deep_view()[i as int] == names@[i as int]@);
        }
        if is_cpu_dir_name(name.as_str()) {
            let end = name.as_str().unicode_len();
            let suffix = name.as_str().substring_char(3, end);
            proof {
                assert(suffix@ =~= name@.skip(3));
            }
            match parse_u32(suffix) {
                Ok(v) => {
                    nums.push(v);
                },
                Err(_) => {},
            }
        }
        i = i + 1;
        proof {
            let dv = names.deep_view();
            assert(dv.take(i as int).drop_last() =~= dv.take(i - 1));
            assert(dv.take(i as int).last() == dv[i - 1]);
        }
    }
    proof {
        assert(names.deep_view().take(names@.len() as int) =~= names.deep_view());
    }
    sort_cores(&nums)
}

proof fn lemma_core_nums_of_contains(names: Seq<Seq<char>>, i: int)
    requires
        0 <= i < names.len(),
        is_cpu_name(names[i]),
        cpu_name_num(names[i]) <= u32::MAX,
    ensures
        core_nums_of(names).contains((cpu_name_num(names[i]) as u32)),
    decreases names.len(),
{
    let v = (cpu_name_num(names[i]) as u32);
    let r = core_nums_of(names);
    if i == names.len() - 1 {
        assert(r[r.len() - 1] == v);
    } else {
        let d = names.drop_last();
        assert(d[i] == names[i]);
        lemma_core_nums_of_contains(d, i);
        let rest = core_nums_of(d);
        let j = choose|j: int| 0 <= j < rest.len() && rest[j] == v;
        assert(r[j] == v);
    }
}

/// Law: whenever the entry names hold `cpu0`, the discovered universe
/// holds core index 0.
pub proof fn lemma_discovery_includes_zero(names: Seq<Seq<char>>)
    requires
        names.contains(seq!['c', 'p', 'u', '0']),
    ensures
        discovered_cores(names).contains(0u32),
{
    let cpu0 = seq!['c', 'p', 'u', '0'];
    let i = choose|i: int| 0 <= i < names.len() && names[i] == cpu0;
    assert(cpu0.skip(3) =~= seq!['0']);
    assert(is_number_str(cpu0.skip(3))) by {
        assert(cpu0.skip(3)[0] == '0');
    }
    assert(cpu_name_num(cpu0) == 0) by {
        let z = cpu0.skip(3);
        assert(z =~= seq!['0']);
        assert(z.drop_last() =~= Seq::<char>::empty());
        assert(dec_val(Seq::<char>::empty()) == 0);
        assert(z.last() == '0');
        assert(dec_val(z) == dec_val(z.drop_last()) * 10 + digit_value(z.last()));
        assert(digit_value('0') == 0);
    }
    lemma_core_nums_of_contains(names, i);
    lemma_sort_u32_ensures(core_nums_of(names));
}

/// On/off status of a core.
pub enum CoreStatus {
    Off,
    On,
}

impl CoreStatus {
    /// The numeric value a mutation writes to a status file: `0` for off,
    /// `1` for on.
    pub fn value(&self) -> (r: u8)
        ensures
            r == (match *self {
                CoreStatus::Off => 0u8,
                CoreStatus::On => 1u8,
            }),
    {
        match *self {
            CoreStatus::Off => 0,
            CoreStatus::On => 1,
        }
    }

    /// The status's name.
    pub fn _name(&self) -> (r: String)
        ensures
            r@ == (match *self {
                CoreStatus::Off => "off"@,
                CoreStatus::On => "on"@,
            }),
    {
        match *self {
            CoreStatus::Off => "off".to_owned(),
            CoreStatus::On => "on".to_owned(),
        }
    }
}

/// The indices of `s` other than core 0, in order and with repetitions.
pub open spec fn writable_of(s: Seq<u32>) -> Seq<u32> {
    s.filter(|n: u32| n != 0)
}

/// The cores a mutation will actually write: core 0 is silently dropped,
/// every other requested index is kept, in request order.
pub fn cores_to_write(cores: &Vec<u32>) -> (r: Vec<u32>)
    ensures
        r@ == writable_of(cores@),
{
    let mut out: Vec<u32> = Vec::new();
    let mut i: usize = 0;
    proof {
        reveal(Seq::filter);
        assert(cores@.take(0).filter(|n: u32| n != 0) =~= Seq::<u32>::empty());
    }
    while i < cores.len()
        invariant
            i <= cores@.len(),
            out@ == cores@.take(i as int).filter(|n: u32| n != 0),
        decreases cores@.len() - i,
    {
        let n = cores[i];
        if n != 0 {
            out.push(n);
        }
        i = i + 1;
        proof {
            reveal(Seq::filter);
            assert(cores@.take(i as int).drop_last() =~= cores@.take(i - 1));
            assert(cores@.take(i as int).last() == cores@[i - 1]);
        }
    }
    proof {
        assert(cores@.take(cores@.len() as int) =~= cores@);
    }
    out
}

/// Law: a mutation request silently omits core 0 — the written list never
/// holds 0 — while every other requested index is still written.
pub proof fn lemma_write_skips_zero(s: Seq<u32>)
    ensures
        !writable_of(s).contains(0u32),
        forall|i: int| 0 <= i < writable_of(s).len() ==> writable_of(s)[i] != 0,
        forall|x: u32| x != 0 ==> (writable_of(s).contains(x) <==> s.contains(x)),
{
    let w = writable_of(s);
    assert forall|i: int| 0 <= i < w.len() implies w[i] != 0 by {
        s.lemma_filter_pred(|n: u32| n != 0, i);
    }
    if w.contains(0u32) {
        let i = choose|i: int| 0 <= i < w.len() && w[i] == 0u32;
    }
    assert forall|x: u32| x != 0 implies (w.contains(x) <==> s.contains(x)) by {
        if s.contains(x) {
            let i = choose|i: int| 0 <= i < s.len() && s[i] == x;
            s.lemma_filter_contains(|n: u32| n != 0, i);
        }
        if w.contains(x) {
            s.lemma_filter_contains_rev(|n: u32| n != 0, x);
        }
    }
}

/// The status flag of a read status file: its first character, or `None`
/// when the file was empty (which callers treat as a read failure).
pub fn status_first_char(s: &str) -> (r: Option<char>)
    ensures
        (match r {
            Some(c) => s@.len() > 0 && c == s@[0],
            None => s@.len() == 0,
        }),
{
    if s.unicode_len() == 0 {
        None
    } else {
        Some(s.get_char(0))
    }
}

} // verus!
