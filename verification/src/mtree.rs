//! Parsing the hypervisor monitor's memory-tree report.
//!
//! The report is free text, one region per line. Lines are grouped into
//! named subtrees by header lines of the form `Root memory region: NAME`;
//! only the subtree named `system` describes guest physical memory, and
//! only lines within it that name the guest-RAM backing object `pc.ram`
//! are taken. Such a line reads
//!
//! `START-END (descriptive tokens): pc.ram [@REMAP] KVM`
//!
//! with `START` and `END` hexadecimal and `END` inclusive; a missing
//! `@REMAP` offset defaults to `START` (the identity-mapped first
//! region).

use vstd::prelude::*;
use vstd::string::*;

use crate::mem_map::Mapping;
use crate::strutil::{
    hex_run_end, hex_value, matches_at, parse_hex_run, skip_spaces, skip_spaces_from,
    spec_split_char, spec_trim, split_char, str_eq, str_matches_at, token_end, token_end_from,
    trim_str,
};

verus! {

/// The subtree a header line opens: the token after
/// `Root memory region:`.
pub open spec fn spec_header_name(l: Seq<char>) -> Option<Seq<char>> {
    let p = "Root memory region:"@;
    if matches_at(l, p, 0) {
        let a = skip_spaces(l, p.len() as int);
        let e = token_end(l, a);
        if e > a {
            Some(l.subrange(a, e))
        } else {
            None
        }
    } else {
        None
    }
}

/// Reads the subtree name off a header line, if this is one.
fn parse_header(l: &str) -> (r: Option<String>)
    ensures
        match r {
            Some(v) => spec_header_name(l@) == Some(v@),
            None => spec_header_name(l@) is None,
        },
{
    let p = "Root memory region:";
    let plen = p.unicode_len();
    if plen > l.unicode_len() {
        return None;
    }
    if !str_matches_at(l, p, 0) {
        return None;
    }
    let a = skip_spaces_from(l, plen);
    let e = token_end_from(l, a);
    if e > a {
        Some(String::from_str(l.substring_char(a, e)))
    } else {
        None
    }
}

/// The region a report line describes, when it is a guest-RAM line:
/// `START-END (descriptive tokens): pc.ram [@REMAP] KVM`. The
/// descriptive tokens may not hold a colon; the end address is
/// inclusive; a missing remap offset defaults to the start.
pub open spec fn spec_range_line(l: Seq<char>) -> Option<Mapping> {
    let e1 = hex_run_end(l, 0);
    let v1 = hex_value(l.subrange(0, e1));
    if e1 == 0 || e1 >= l.len() || l[e1] != '-' || v1 > u64::MAX as int {
        None
    } else {
        let e2 = hex_run_end(l, e1 + 1);
        let v2 = hex_value(l.subrange(e1 + 1, e2));
        if e2 == e1 + 1 || v2 >= u64::MAX as int {
            None
        } else {
            let c = crate::strutil::find_from(l, e2, ':');
            if c >= l.len() {
                None
            } else {
                let a = skip_spaces(l, c + 1);
                if !matches_at(l, "pc.ram"@, a) {
                    None
                } else {
                    let b = skip_spaces(l, a + "pc.ram"@.len());
                    if matches_at(l, "KVM"@, b) {
                        Some(
                            Mapping {
                                range_start: v1 as u64,
                                range_end: (v2 + 1) as u64,
                                remap_start: v1 as u64,
                            },
                        )
                    } else if b < l.len() && l[b] == '@' {
                        let e3 = hex_run_end(l, b + 1);
                        let v3 = hex_value(l.subrange(b + 1, e3));
                        if e3 == b + 1 || v3 > u64::MAX as int {
                            None
                        } else {
                            let b2 = skip_spaces(l, e3);
                            if matches_at(l, "KVM"@, b2) {
                                Some(
                                    Mapping {
                                        range_start: v1 as u64,
                                        range_end: (v2 + 1) as u64,
                                        remap_start: v3 as u64,
                                    },
                                )
                            } else {
                                None
                            }
                        }
                    } else {
                        None
                    }
                }
            }
        }
    }
}

/// Reads a guest-RAM region line, if this is one.
fn parse_range_line(l: &str) -> (r: Option<Mapping>)
    ensures
        match r {
            Some(m) => spec_range_line(l@) == Some(m),
            None => spec_range_line(l@) is None,
        },
{
    let n = l.unicode_len();
    let (e1, v1o) = parse_hex_run(l, 0);
    if e1 == 0 || e1 >= n {
        return None;
    }
    if l.get_char(e1) != '-' {
        return None;
    }
    let v1 = match v1o {
        Some(v) => v,
        None => {
            return None;
        },
    };
    let (e2, v2o) = parse_hex_run(l, e1 + 1);
    if e2 == e1 + 1 {
        return None;
    }
    let v2 = match v2o {
        Some(v) => {
            if v == u64::MAX {
                return None;
            }
            v
        },
        None => {
            return None;
        },
    };
    let c = crate::strutil::find_char_from(l, e2, ':');
    if c >= n {
        return None;
    }
    let a = skip_spaces_from(l, c + 1);
    if !str_matches_at(l, "pc.ram", a) {
        return None;
    }
    proof {
        assert("pc.ram"@.len() == 6) by {
            reveal_strlit("pc.ram");
        }
    }
    let b = skip_spaces_from(l, a + 6);
    if str_matches_at(l, "KVM", b) {
        return Some(Mapping { range_start: v1, range_end: v2 + 1, remap_start: v1 });
    }
    if b < n && l.get_char(b) == '@' {
        let (e3, v3o) = parse_hex_run(l, b + 1);
        if e3 == b + 1 {
            return None;
        }
        let v3 = match v3o {
            Some(v) => v,
            None => {
                return None;
            },
        };
        let b2 = skip_spaces_from(l, e3);
        if str_matches_at(l, "KVM", b2) {
            return Some(Mapping { range_start: v1, range_end: v2 + 1, remap_start: v3 });
        }
        return None;
    }
    None
}

/// The report's lines: split at newlines, whitespace-trimmed.
pub open spec fn spec_lines(text: Seq<char>) -> Seq<Seq<char>> {
    spec_split_char(text, '\n').map_values(|l: Seq<char>| spec_trim(l))
}

/// The parser state after the first `i` lines: are we inside the
/// `system` subtree? A header line switches the state; other lines keep
/// it; before any header it is off.
pub open spec fn spec_in_system_after(lines: Seq<Seq<char>>, i: int) -> bool
    decreases i,
{
    if i <= 0 {
        false
    } else {
        match spec_header_name(lines[i - 1]) {
            Some(n) => n == "system"@,
            None => spec_in_system_after(lines, i - 1),
        }
    }
}

/// The regions extracted from the first `i` lines: each line is run
/// through the header state machine first, then, inside the `system`
/// subtree, through the guest-RAM line reader.
pub open spec fn spec_parse_upto(lines: Seq<Seq<char>>, i: int) -> Seq<Mapping>
    decreases i,
{
    if i <= 0 {
        Seq::empty()
    } else {
        spec_parse_upto(lines, i - 1) + (if spec_in_system_after(lines, i) {
            match spec_range_line(lines[i - 1]) {
                Some(m) => seq![m],
                None => Seq::<Mapping>::empty(),
            }
        } else {
            Seq::<Mapping>::empty()
        })
    }
}

/// All guest-RAM regions a memory-tree report describes under its
/// `system` subtree, in report order.
pub open spec fn spec_parse_mtree(text: Seq<char>) -> Seq<Mapping> {
    spec_parse_upto(spec_lines(text), spec_lines(text).len() as int)
}

/// Parses a memory-tree report.
pub fn qmp_parse_mtree(text: &str) -> (r: Vec<Mapping>)
    ensures
        r@ == spec_parse_mtree(text@),
{
    let pieces = split_char(text, '\n');
    let ghost lines = spec_lines(text@);
    proof {
        assert(lines.len() == pieces.deep_view().len());
    }
    let n = pieces.len();
    let mut out: Vec<Mapping> = Vec::new();
    let mut sys: bool = false;
    let mut i: usize = 0;
    proof {
        assert(out@ =~= spec_parse_upto(lines, 0));
    }
    while i < n
        invariant
            pieces.deep_view() == spec_split_char(text@, '\n'),
            lines == spec_lines(text@),
            lines.len() == pieces.deep_view().len(),
            n == pieces@.len(),
            n == lines.len(),
            i <= n,
            sys == spec_in_system_after(lines, i as int),
            out@ == spec_parse_upto(lines, i as int),
        decreases n - i,
    {
        let line = trim_str(pieces[i].as_str());
        proof {
            assert(pieces.deep_view()[i as int] == pieces@[i as int]@);
            assert(lines[i as int] == spec_trim(pieces@[i as int]@));
            assert(line@ == lines[i as int]);
        }
        match parse_header(line) {
            Some(name) => {
                sys = str_eq(name.as_str(), "system");
            },
            None => {},
        }
        proof {
            assert(sys == spec_in_system_after(lines, i + 1));
        }
        if sys {
            match parse_range_line(line) {
                Some(m) => {
                    out.push(m);
                    proof {
                        assert(out@ =~= spec_parse_upto(lines, i as int) + seq![m]);
                    }
                },
                None => {
                    proof {
                        assert(out@ =~= spec_parse_upto(lines, i as int)
                            + Seq::<Mapping>::empty());
                    }
                },
            }
        } else {
            proof {
                assert(out@ =~= spec_parse_upto(lines, i as int) + Seq::<Mapping>::empty());
            }
        }
        i += 1;
    }
    out
}

} // verus!

verus! {

/// The header at line `j` opens the `system` subtree and still governs
/// line positions up to (excluding) `i`: no later header intervenes.
pub open spec fn spec_system_governs(lines: Seq<Seq<char>>, j: int, i: int) -> bool {
    0 <= j < i && spec_header_name(lines[j]) == Some("system"@) && (forall|k: int|
        j < k < i ==> spec_header_name(#[trigger] lines[k]) is None)
}

/// The state machine is on after `i` lines exactly when the nearest
/// header among them opens the `system` subtree.
pub proof fn lemma_in_system_iff(lines: Seq<Seq<char>>, i: int)
    requires
        0 <= i <= lines.len(),
    ensures
        spec_in_system_after(lines, i) <==> exists|j: int| #[trigger] spec_system_governs(lines, j, i),
    decreases i,
{
    if i > 0 {
        lemma_in_system_iff(lines, i - 1);
        match spec_header_name(lines[i - 1]) {
            Some(n) => {
                if n == "system"@ {
                    assert(spec_system_governs(lines, i - 1, i));
                } else {
                    assert forall|j: int| ! #[trigger] spec_system_governs(lines, j, i) by {
                        if 0 <= j < i && spec_header_name(lines[j]) == Some("system"@) {
                            if j == i - 1 {
                                assert(n == "system"@);
                            } else {
                                assert(spec_header_name(lines[i - 1]) is None ==> false);
                            }
                        }
                    }
                }
            },
            None => {
                if spec_in_system_after(lines, i - 1) {
                    let j = choose|j: int| #[trigger] spec_system_governs(lines, j, i - 1);
                    assert forall|k: int|
                        j < k < i implies spec_header_name(#[trigger] lines[k]) is None by {}
                    assert(spec_system_governs(lines, j, i));
                } else {
                    assert forall|j: int| ! #[trigger] spec_system_governs(lines, j, i) by {
                        if spec_system_governs(lines, j, i) {
                            if j == i - 1 {
                                assert(spec_header_name(lines[j]) is None);
                            } else {
                                assert(spec_system_governs(lines, j, i - 1));
                            }
                        }
                    }
                }
            },
        }
    }
}

/// Each region extracted among the first `n` lines comes from a line
/// read with the state machine on.
proof fn lemma_parse_upto_member(lines: Seq<Seq<char>>, n: int, m: Mapping)
    requires
        0 <= n <= lines.len(),
        spec_parse_upto(lines, n).contains(m),
    ensures
        exists|i: int|
            0 <= i < n && #[trigger] spec_range_line(lines[i]) == Some(m)
                && spec_in_system_after(lines, i + 1),
    decreases n,
{
    if n > 0 {
        let added: Seq<Mapping> = if spec_in_system_after(lines, n) {
            match spec_range_line(lines[n - 1]) {
                Some(mm) => seq![mm],
                None => Seq::<Mapping>::empty(),
            }
        } else {
            Seq::<Mapping>::empty()
        };
        let idx = choose|idx: int|
            0 <= idx < spec_parse_upto(lines, n).len() && spec_parse_upto(lines, n)[idx] == m;
        if idx < spec_parse_upto(lines, n - 1).len() {
            assert(spec_parse_upto(lines, n - 1)[idx] == m);
            assert(spec_parse_upto(lines, n - 1).contains(m));
            lemma_parse_upto_member(lines, n - 1, m);
            let i = choose|i: int|
                0 <= i < n - 1 && #[trigger] spec_range_line(lines[i]) == Some(m)
                    && spec_in_system_after(lines, i + 1);
            assert(0 <= i < n && spec_range_line(lines[i]) == Some(m) && spec_in_system_after(
                lines,
                i + 1,
            ));
        } else {
            assert(added[idx - spec_parse_upto(lines, n - 1).len()] == m);
            assert(added.len() > 0);
            assert(spec_in_system_after(lines, n));
            assert(spec_range_line(lines[n - 1]) == Some(m));
        }
    } else {
        assert(spec_parse_upto(lines, n).len() == 0);
    }
}

/// Law: the parser extracts only regions lying under the `system`
/// subtree. Every extracted region comes from a line whose nearest
/// header above opens `system`; lines under any other named subtree
/// contribute nothing.
pub proof fn lemma_parse_mtree_system_only(text: Seq<char>, m: Mapping)
    requires
        spec_parse_mtree(text).contains(m),
    ensures
        exists|i: int|
            0 <= i < spec_lines(text).len() && #[trigger] spec_range_line(spec_lines(text)[i])
                == Some(m) && exists|j: int| #[trigger] spec_system_governs(spec_lines(text), j, i + 1),
{
    let lines = spec_lines(text);
    lemma_parse_upto_member(lines, lines.len() as int, m);
    let i = choose|i: int|
        0 <= i < lines.len() && #[trigger] spec_range_line(lines[i]) == Some(m)
            && spec_in_system_after(lines, i + 1);
    lemma_in_system_iff(lines, i + 1);
}

/// Law: a report with no `system` header yields nothing at all.
pub proof fn lemma_parse_mtree_no_system(text: Seq<char>)
    requires
        forall|j: int|
            0 <= j < spec_lines(text).len() ==> spec_header_name(#[trigger] spec_lines(text)[j])
                != Some("system"@),
    ensures
        spec_parse_mtree(text).len() == 0,
{
    let lines = spec_lines(text);
    assert forall|n: int| 0 <= n <= lines.len() implies spec_parse_upto(lines, n).len() == 0 by {
        lemma_parse_upto_empty(lines, n);
    }
}

/// Without a `system` header, no prefix contributes anything.
proof fn lemma_parse_upto_empty(lines: Seq<Seq<char>>, n: int)
    requires
        0 <= n <= lines.len(),
        forall|j: int|
            0 <= j < lines.len() ==> spec_header_name(#[trigger] lines[j]) != Some("system"@),
    ensures
        spec_parse_upto(lines, n).len() == 0,
    decreases n,
{
    if n > 0 {
        lemma_parse_upto_empty(lines, n - 1);
        lemma_in_system_iff(lines, n);
        if spec_in_system_after(lines, n) {
            let j = choose|j: int| #[trigger] spec_system_governs(lines, j, n);
            assert(spec_header_name(lines[j]) == Some("system"@));
        }
    }
}

} // verus!
