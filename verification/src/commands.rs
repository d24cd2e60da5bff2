//! The three operations: activate, deactivate, show.
//!
//! Each resolves a request — an optional range expression with
//! de-duplication and sorting flags — against the discovered universe and
//! returns the validated core set the operation acts on, or the error that
//! refuses the whole request.  The surrounding process performs the writes
//! or reads only on a returned set, so a refused request touches no file.

use vstd::prelude::*;

verus! {

use crate::order::{dedup_first, sort_u32, dedup_cores, sort_cores};
use crate::ranges::{RangeError, spec_parse_ranges, parse_range_expression};
use crate::cores::{writable_of, lemma_write_skips_zero};

/// Arguments of an operation whose core specification may be omitted:
/// activation and reporting default to the whole universe.
pub struct OptionalCoresArgs {
    pub cores: Option<String>,
    pub no_duplicates: bool,
    pub sort: bool,
}

/// Arguments of an operation that must name its cores: deactivation.
pub struct CoresArgs {
    pub cores: String,
    pub no_duplicates: bool,
    pub sort: bool,
}

/// Why a whole request is refused: a malformed range expression, a
/// request naming a core outside the discovered universe, or an attempt
/// to deactivate core 0.
#[derive(Debug)]
pub enum CoreError {
    Range(RangeError),
    Validation { invalid: Vec<u32>, universe: Vec<u32> },
    ProtectedCore,
}

pub open spec fn view_of_expr(o: Option<String>) -> Option<Seq<char>> {
    match o {
        Some(s) => Some(s@),
        None => None,
    }
}

/// The requested list after the optional de-duplication and sorting;
/// de-duplication comes first, though a sorted result does not depend on
/// the order.
pub open spec fn apply_flags(s: Seq<u32>, no_duplicates: bool, sort_flag: bool) -> Seq<u32> {
    let d = if no_duplicates {
        dedup_first(s)
    } else {
        s
    };
    if sort_flag {
        sort_u32(d)
    } else {
        d
    }
}

/// The core set an operation will use, before validation: the parsed,
/// flag-adjusted expression, or the whole universe when none was given.
pub open spec fn selection_spec(
    expr: Option<Seq<char>>,
    no_duplicates: bool,
    sort_flag: bool,
    universe: Seq<u32>,
) -> Result<Seq<u32>, RangeError> {
    match expr {
        Some(e) => match spec_parse_ranges(e) {
            Ok(s) => Ok(apply_flags(s, no_duplicates, sort_flag)),
            Err(er) => Err(er),
        },
        None => Ok(universe),
    }
}

pub open spec fn all_in_universe(s: Seq<u32>, u: Seq<u32>) -> bool {
    forall|i: int| 0 <= i < s.len() ==> u.contains(#[trigger] s[i])
}

/// The requested indices the universe does not hold, in request order.
pub open spec fn invalid_of(s: Seq<u32>, u: Seq<u32>) -> Seq<u32> {
    s.filter(|x: u32| !u.contains(x))
}

/// The one contract of the three operations.  The selection is resolved;
/// a malformed expression is refused with its parse error; a selection
/// naming an unknown core is refused with the offending indices and the
/// permitted universe; a protected operation is refused outright when the
/// selection holds core 0; otherwise the validated selection itself comes
/// back.
pub open spec fn resolves_to(
    r: Result<Vec<u32>, CoreError>,
    expr: Option<Seq<char>>,
    no_duplicates: bool,
    sort_flag: bool,
    universe: Seq<u32>,
    protect_zero: bool,
) -> bool {
    match selection_spec(expr, no_duplicates, sort_flag, universe) {
        Err(e) => r matches Err(CoreError::Range(e2)) && e2 == e,
        Ok(sel) => if !all_in_universe(sel, universe) {
            &&& r matches Err(CoreError::Validation { invalid, universe: u2 })
            &&& invalid@ == invalid_of(sel, universe)
            &&& u2@ == universe
        } else if protect_zero && sel.contains(0u32) {
            r matches Err(CoreError::ProtectedCore)
        } else {
            r matches Ok(v) && v@ == sel
        },
    }
}

fn contains_core(v: &Vec<u32>, x: u32) -> (r: bool)
    ensures
        r == v@.contains(x),
{
    let mut i: usize = 0;
    while i < v.len()
        invariant
            i <= v@.len(),
            forall|j: int| 0 <= j < i ==> v@[j] != x,
        decreases v@.len() - i,
    {
        if v[i] == x {
            assert(v@[i as int] == x);
            return true;
        }
        i = i + 1;
    }
    false
}

fn all_in(v: &Vec<u32>, u: &Vec<u32>) -> (r: bool)
    ensures
        r == all_in_universe(v@, u@),
{
    let mut i: usize = 0;
    while i < v.len()
        invariant
            i <= v@.len(),
            forall|j: int| 0 <= j < i ==> u@.contains(#[trigger] v@[j]),
        decreases v@.len() - i,
    {
        if !contains_core(u, v[i]) {
            assert(!u@.contains(v@[i as int]));
            return false;
        }
        i = i + 1;
    }
    true
}

fn invalid_elems(v: &Vec<u32>, u: &Vec<u32>) -> (r: Vec<u32>)
    ensures
        r@ == invalid_of(v@, u@),
{
    let mut out: Vec<u32> = Vec::new();
    let mut i: usize = 0;
    proof {
        reveal(Seq::filter);
        assert(invalid_of(v@.take(0), u@) =~= Seq::<u32>::empty());
    }
    while i < v.len()
        invariant
            i <= v@.len(),
            out@ == invalid_of(v@.take(i as int), u@),
        decreases v@.len() - i,
    {
        let x = v[i];
        if !contains_core(u, x) {
            out.push(x);
        }
        i = i + 1;
        proof {
            reveal(Seq::filter);
            assert(v@.take(i as int).drop_last() =~= v@.take(i - 1));
            assert(v@.take(i as int).last() == v@[i - 1]);
        }
    }
    proof {
        assert(v@.take(v@.len() as int) =~= v@);
    }
    out
}

fn copy_cores(v: &Vec<u32>) -> (r: Vec<u32>)
    ensures
        r@ == v@,
{
    let mut out: Vec<u32> = Vec::new();
    let mut i: usize = 0;
    while i < v.len()
        invariant
            i <= v@.len(),
            out@ == v@.take(i as int),
        decreases v@.len() - i,
    {
        out.push(v[i]);
        i = i + 1;
        proof {
            assert(out@ =~= v@.take(i as int));
        }
    }
    proof {
        assert(v@.take(v@.len() as int) =~= v@);
    }
    out
}

fn resolve_cores(
    expr: Option<&String>,
    no_duplicates: bool,
    sort_flag: bool,
    universe: &Vec<u32>,
    protect_zero: bool,
) -> (r: Result<Vec<u32>, CoreError>)
    ensures
        resolves_to(
            r,
            (match expr {
                Some(s) => Some(s@),
                None => None,
            }),
            no_duplicates,
            sort_flag,
            universe@,
            protect_zero,
        ),
{
    let cores = match expr {
        Some(e) => match parse_range_expression(e.as_str()) {
            Ok(v) => {
                let v1 = if no_duplicates {
                    dedup_cores(v)
                } else {
                    v
                };
                if sort_flag {
                    sort_cores(&v1)
                } else {
                    v1
                }
            },
            Err(er) => {
                return Err(CoreError::Range(er));
            },
        },
        None => copy_cores(universe),
    };
    if !all_in(&cores, universe) {
        let inv = invalid_elems(&cores, universe);
        let uni = copy_cores(universe);
        return Err(CoreError::Validation { invalid: inv, universe: uni });
    }
    if protect_zero && contains_core(&cores, 0) {
        return Err(CoreError::ProtectedCore);
    }
    Ok(cores)
}

/// Resolves an activation request to the validated core set the writes
/// will run over.  Core 0 may be named: it is kept in the set here and
/// silently skipped at write time.
pub fn activate_cmd(args: &OptionalCoresArgs, universe: &Vec<u32>) -> (r: Result<
    Vec<u32>,
    CoreError,
>)
    ensures
        resolves_to(r, view_of_expr(args.cores), args.no_duplicates, args.sort, universe@, false),
{
    let expr: Option<&String> = match &args.cores {
        Some(s) => Some(s),
        None => None,
    };
    resolve_cores(expr, args.no_duplicates, args.sort, universe, false)
}

/// Resolves a deactivation request.  Beyond validation, a set holding
/// core 0 is refused outright: the scheduling core cannot be taken
/// offline, even as part of a larger request.
pub fn deactivate_cmd(args: &CoresArgs, universe: &Vec<u32>) -> (r: Result<Vec<u32>, CoreError>)
    ensures
        resolves_to(r, Some(args.cores@), args.no_duplicates, args.sort, universe@, true),
{
    resolve_cores(Some(&args.cores), args.no_duplicates, args.sort, universe, true)
}

/// Resolves a report request to the validated core set whose status lines
/// will be printed, in this order.
pub fn show_cmd(args: &OptionalCoresArgs, universe: &Vec<u32>) -> (r: Result<Vec<u32>, CoreError>)
    ensures
        resolves_to(r, view_of_expr(args.cores), args.no_duplicates, args.sort, universe@, false),
{
    let expr: Option<&String> = match &args.cores {
        Some(s) => Some(s),
        None => None,
    };
    resolve_cores(expr, args.no_duplicates, args.sort, universe, false)
}

/// Law: a deactivation whose validated selection holds core 0 is refused
/// with the protected-core error, whatever else the selection holds.
pub proof fn lemma_deactivate_protects_zero(
    r: Result<Vec<u32>, CoreError>,
    expr: Seq<char>,
    no_duplicates: bool,
    sort_flag: bool,
    universe: Seq<u32>,
)
    requires
        resolves_to(r, Some(expr), no_duplicates, sort_flag, universe, true),
        selection_spec(Some(expr), no_duplicates, sort_flag, universe) matches Ok(sel)
            && all_in_universe(sel, universe) && sel.contains(0u32),
    ensures
        r matches Err(CoreError::ProtectedCore),
{
}

/// Law: a request naming any core outside the discovered universe is
/// refused with the validation error, for every operation; the caller
/// gets no set back, so nothing is written or read for such a request.
pub proof fn lemma_unknown_core_refused(
    r: Result<Vec<u32>, CoreError>,
    expr: Option<Seq<char>>,
    no_duplicates: bool,
    sort_flag: bool,
    universe: Seq<u32>,
    protect_zero: bool,
)
    requires
        resolves_to(r, expr, no_duplicates, sort_flag, universe, protect_zero),
        selection_spec(expr, no_duplicates, sort_flag, universe) matches Ok(sel)
            && !all_in_universe(sel, universe),
    ensures
        r matches Err(CoreError::Validation { .. }),
{
}

/// Law: an activation request that resolves within the universe succeeds
/// even when it holds core 0; the list of cores actually written omits 0
/// and keeps every other requested index.
pub proof fn lemma_activate_allows_zero(
    r: Result<Vec<u32>, CoreError>,
    expr: Option<Seq<char>>,
    no_duplicates: bool,
    sort_flag: bool,
    universe: Seq<u32>,
)
    requires
        resolves_to(r, expr, no_duplicates, sort_flag, universe, false),
        selection_spec(expr, no_duplicates, sort_flag, universe) matches Ok(sel)
            && all_in_universe(sel, universe),
    ensures
        r is Ok,
        !writable_of(r->Ok_0@).contains(0u32),
        forall|x: u32| x != 0 ==> (writable_of(r->Ok_0@).contains(x) <==> r->Ok_0@.contains(x)),
{
    lemma_write_skips_zero(r->Ok_0@);
}

} // verus!
