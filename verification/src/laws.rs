//! The library's general laws, each proved once and for all inputs: how
//! the bounded history behaves under recording, that track identifiers
//! stay fresh, that a written playback position reads back exactly, and
//! that a document of one top-level list survives the save-then-load
//! round trip whole.

use vstd::prelude::*;
use crate::chars::{
    all_digits, dec_chars, dec_val, digit_char, is_digit, lemma_dec_chars_digits,
    lemma_dec_val_of_dec_chars, lemma_idx_of_is,
};
use crate::codec::{clamp_u64, fr_ms, frac3, position_chars, position_val, valid_position};
use crate::model::{hist_nodup, lemma_record_wf, Model, TrackID};
use crate::tree::{lemma_tid_count_nonneg, tid_count, NodeV};
use crate::util::record_seq;

verus! {

/// Recording a path never leaves the history longer than its capacity,
/// and always leaves that path at the front.
pub proof fn law_history_bound(h: Seq<Seq<char>>, v: Seq<char>, max: int)
    requires
        hist_nodup(h),
        h.len() <= max,
        max >= 1,
    ensures
        record_seq(h, v, max).len() <= max,
        record_seq(h, v, max).len() > 0,
        record_seq(h, v, max)[0] == v,
        hist_nodup(record_seq(h, v, max)),
{
    lemma_record_wf(h, v, max);
}

/// Recording the same path twice in a row changes nothing the second
/// time, and the log then holds exactly one occurrence of it: at the
/// front.
pub proof fn law_history_record_twice(h: Seq<Seq<char>>, v: Seq<char>, max: int)
    requires
        hist_nodup(h),
        h.len() <= max,
        max >= 1,
    ensures
        ({
            let once = record_seq(h, v, max);
            let twice = record_seq(once, v, max);
            &&& twice == once
            &&& once.len() > 0 && once[0] == v
            &&& forall|i: int| 0 < i < once.len() ==> once[i] != v
        }),
{
    lemma_record_wf(h, v, max);
    let once = record_seq(h, v, max);
    assert forall|i: int| 0 < i < once.len() implies once[i] != v by {
        assert(once[0] == v);
    }
}

/// The identifier the next track will get tags no leaf of the tree: in a
/// well-formed model — and every operation keeps a model well formed —
/// every tree identifier lies strictly below the counter, so no two
/// tracks ever share one.
pub proof fn law_next_identifier_fresh(m: Model)
    requires
        m.wf(),
    ensures
        tid_count(m.f(), (m.treg().next() as TrackID)) == 0,
{
    let t = m.treg().next() as TrackID;
    lemma_tid_count_nonneg(m.f(), t);
    if tid_count(m.f(), t) > 0 {
        assert(t < m.treg().next());
    }
}

/// A written playback position reads back as exactly the value written:
/// the numeric core of the save-then-load round trip.
pub proof fn law_position_round_trip(ms: u64)
    ensures
        position_val(position_chars(ms)) == ms,
{
    let hi = (ms / 1000) as nat;
    let f = (ms % 1000) as int;
    let dec = dec_chars(hi);
    lemma_dec_chars_digits(hi);
    lemma_dec_val_of_dec_chars(hi);
    let s = position_chars(ms);
    let di = dec.len() as int;
    assert(s.len() == di + 4);
    assert forall|j: int| 0 <= j < di implies s[j] != '.' by {
        assert(s[j] == dec[j]);
        assert(is_digit(dec[j]));
    }
    assert(s[di] == '.');
    lemma_idx_of_is(s, '.', di);
    let ip = s.subrange(0, di);
    let fr = s.subrange(di + 1, s.len() as int);
    assert(ip =~= dec);
    assert(fr =~= frac3(f));
    assert(0 <= f < 1000);
    assert(is_digit(digit_char(f / 100 % 10)));
    assert(is_digit(digit_char(f / 10 % 10)));
    assert(is_digit(digit_char(f % 10)));
    assert(all_digits(fr));
    assert(valid_position(s));
    assert(fr[0] == digit_char(f / 100 % 10));
    assert(fr[1] == digit_char(f / 10 % 10));
    assert(fr[2] == digit_char(f % 10));
    assert(fr_ms(fr) == (f / 100 % 10) * 100 + (f / 10 % 10) * 10 + f % 10);
    assert(f / 100 % 10 == f / 100);
    assert((f / 100) * 100 + (f / 10 % 10) * 10 + f % 10 == f) by (nonlinear_arith)
        requires
            0 <= f < 1000,
    ;
    assert(dec_val(ip) == hi);
    assert(clamp_u64(hi * 1000 + f) == ms);
}

/// A written position holds only digits and one dot, and ends in a digit.
proof fn lemma_position_chars_clean(ms: u64)
    ensures
        forall|j: int|
            0 <= j < position_chars(ms).len() ==> #[trigger] position_chars(ms)[j] != '\n'
                && position_chars(ms)[j] != '\t' && position_chars(ms)[j] != '\x0B'
                && position_chars(ms)[j] != '\x0C',
        position_chars(ms).len() > 0,
        position_chars(ms).last() != '\r',
{
    let hi = (ms / 1000) as nat;
    let f = (ms % 1000) as int;
    lemma_dec_chars_digits(hi);
    let s = position_chars(ms);
    assert forall|j: int|
        0 <= j < s.len() implies #[trigger] s[j] != '\n' && s[j] != '\t' && s[j] != '\x0B' && s[j]
        != '\x0C' by {
        let d = dec_chars(hi).len() as int;
        if j < d {
            assert(s[j] == dec_chars(hi)[j]);
            assert(is_digit(dec_chars(hi)[j]));
        } else if j == d {
            assert(s[j] == '.');
        } else {
            assert(s[j] == frac3(f)[j - d - 1]);
            assert(is_digit(digit_char(f / 100 % 10)));
            assert(is_digit(digit_char(f / 10 % 10)));
            assert(is_digit(digit_char(f % 10)));
        }
    }
    assert(s.last() == frac3(f)[2]);
    assert(is_digit(digit_char(f % 10)));
}

/// Once the parser reads history entries, clean, duplicate-free lines
/// come back exactly and in order.
proof fn lemma_history_phase(
    lines: Seq<Seq<char>>,
    base: int,
    hist: Seq<Seq<char>>,
    st: crate::codec::PStateV,
    k: int,
)
    requires
        st.mode is InHistory,
        hist_nodup(hist),
        st.history == hist.take(k),
        0 <= k <= hist.len(),
        0 <= base,
        base + hist.len() == lines.len(),
        forall|j: int| 0 <= j < hist.len() ==> lines[base + j] == hist[j],
        forall|i: int| 0 <= i < hist.len() ==> (#[trigger] hist[i]).len() > 0,
    ensures
        crate::codec::run_parse(lines, base + k, st) == Ok::<
            crate::codec::PStateV,
            crate::codec::PErrV,
        >(crate::codec::PStateV { history: hist, ..st }),
    decreases hist.len() - k,
{
    if k == hist.len() {
        assert(hist.take(k) =~= hist);
        assert(st == crate::codec::PStateV { history: hist, ..st });
    } else {
        let line = lines[base + k];
        assert(line == hist[k]);
        assert(line.len() > 0);
        assert forall|j: int| 0 <= j < k implies #[trigger] st.history[j] != line by {
            assert(st.history[j] == hist[j]);
        }
        crate::util::lemma_first_pos_is(st.history, line, 0, k);
        assert(st.history.push(line) =~= hist.take(k + 1));
        let st2 = crate::codec::PStateV { history: hist.take(k + 1), ..st };
        assert(crate::codec::pstep(st, line, base + k + 1) == Ok::<
            crate::codec::PStateV,
            crate::codec::PErrV,
        >(st2));
        lemma_history_phase(lines, base, hist, st2, k + 1);
        assert(crate::codec::run_parse(lines, base + k, st) == crate::codec::run_parse(
            lines,
            base + k + 1,
            st2,
        ));
        assert(crate::codec::PStateV { history: hist, ..st2 } == crate::codec::PStateV {
            history: hist,
            ..st
        });
    }
}

/// The leaves of the registry tracks `lo + 1` up to `hi`, in identifier
/// order.
pub open spec fn kid_nodes_range(
    reg: Map<TrackID, crate::model::Track>,
    lo: int,
    hi: int,
) -> Seq<NodeV> {
    Seq::new(
        (hi - lo) as nat,
        |i: int|
            NodeV::Track {
                label: crate::util::canonical_label(reg[(lo + i + 1) as TrackID].filename@),
                tid: (lo + i + 1) as TrackID,
            },
    )
}

/// The leaves a registry's first `k` tracks make, in identifier order.
pub open spec fn kid_nodes(reg: Map<TrackID, crate::model::Track>, k: int) -> Seq<NodeV> {
    kid_nodes_range(reg, 0, k)
}

/// The filename and position pairs of a registry's first `k` tracks.
pub open spec fn track_pairs(reg: Map<TrackID, crate::model::Track>, k: int) -> Seq<
    (Seq<char>, u64),
> {
    Seq::new(
        k as nat,
        |i: int| (reg[(i + 1) as TrackID].filename@, reg[(i + 1) as TrackID].millis),
    )
}

/// The paths of the registry tracks `lo + 1` up to `hi`, under one list.
pub open spec fn track_paths_range(
    label: Seq<char>,
    reg: Map<TrackID, crate::model::Track>,
    lo: int,
    hi: int,
) -> Seq<Seq<char>> {
    Seq::new(
        (hi - lo) as nat,
        |i: int| label + seq!['/'] + crate::util::canonical_label(
            reg[(lo + i + 1) as TrackID].filename@,
        ),
    )
}

/// The track paths of a registry's first `k` tracks, under one list.
pub open spec fn track_paths(
    label: Seq<char>,
    reg: Map<TrackID, crate::model::Track>,
    k: int,
) -> Seq<Seq<char>> {
    track_paths_range(label, reg, 0, k)
}

/// A registry whose first `n` tracks have clean files: registered, with
/// tab- and newline-free filenames that do not open like a header line.
pub open spec fn clean_files(reg: Map<TrackID, crate::model::Track>, n: int) -> bool {
    &&& forall|i: int| 0 <= i < n ==> reg.contains_key((#[trigger] (i + 1)) as TrackID)
    &&& forall|i: int, j: int|
        0 <= i < n && 0 <= j < reg[((i + 1)) as TrackID].filename@.len() ==> (
        #[trigger] reg[((i + 1)) as TrackID].filename@[j]) != '\t' && reg[((i
            + 1)) as TrackID].filename@[j] != '\n'
    &&& forall|i: int|
        0 <= i < n && (#[trigger] reg[((i + 1)) as TrackID].filename@).len() > 0 ==> reg[((i
            + 1)) as TrackID].filename@[0] != '\x0B' && reg[((i + 1)) as TrackID].filename@[0]
            != '\x0C'
}

/// The canonical labels of the registry tracks `lo + 1` up to `hi` are
/// pairwise distinct: what `add_track`'s sibling disambiguation keeps.
pub open spec fn distinct_canons(reg: Map<TrackID, crate::model::Track>, lo: int, hi: int) -> bool {
    forall|i: int, j: int|
        lo <= i < j < hi ==> crate::util::canonical_label(
            (#[trigger] reg[((i + 1)) as TrackID]).filename@,
        ) != crate::util::canonical_label((#[trigger] reg[((j + 1)) as TrackID]).filename@)
}

/// A registry whose first `n` tracks are clean and pairwise distinct in
/// their canonical labels.
pub open spec fn clean_tracks(reg: Map<TrackID, crate::model::Track>, n: int) -> bool {
    clean_files(reg, n) && distinct_canons(reg, 0, n)
}

/// Appending one list label to two joined paths keeps them apart exactly
/// when the labels differ.
proof fn lemma_join_two(label: Seq<char>, a: Seq<char>, b: Seq<char>)
    requires
        a != b,
    ensures
        label + seq!['/'] + a != label + seq!['/'] + b,
{
    let pa = label + seq!['/'] + a;
    let pb = label + seq!['/'] + b;
    if pa == pb {
        assert(pa.len() == pb.len());
        assert(pa.len() == label.len() + 1 + a.len());
        assert(pb.len() == label.len() + 1 + b.len());
        assert(a.len() == b.len());
        assert forall|q: int| 0 <= q < a.len() implies a[q] == b[q] by {
            assert(pa[label.len() + 1 + q] == a[q]);
            assert(pb[label.len() + 1 + q] == b[q]);
        }
        assert(a =~= b);
    }
}

/// In the tracks section, each clean track line appends one leaf to the
/// open list — the last of the `done` nodes plus one — one record and one
/// seen path.  The open list holds the tracks `lo + 1` up to `hi`; `k` of
/// them are already read.
proof fn lemma_tracks_phase(
    lines: Seq<Seq<char>>,
    base: int,
    done: Seq<NodeV>,
    label: Seq<char>,
    reg: Map<TrackID, crate::model::Track>,
    lo: int,
    hi: int,
    seen0: Seq<Seq<char>>,
    st: crate::codec::PStateV,
    k: int,
)
    requires
        st.mode is InTracks,
        0 <= lo <= k <= hi,
        hi + 1 <= i32::MAX,
        0 <= base,
        base + (hi - lo) <= lines.len(),
        clean_files(reg, hi),
        distinct_canons(reg, lo, hi),
        st.labels == seq![label],
        st.chain == seq![done.len() as int],
        st.forest == done.push(NodeV::List { label: label, kids: kid_nodes_range(reg, lo, k) }),
        st.tracks == track_pairs(reg, k),
        st.tracks_seen == seen0 + track_paths_range(label, reg, lo, k),
        forall|j: int, q: int|
            lo <= j < hi && 0 <= q < seen0.len() ==> #[trigger] seen0[q] != label + seq!['/']
                + crate::util::canonical_label((#[trigger] reg[((j + 1)) as TrackID]).filename@),
        forall|j: int|
            lo <= j < hi ==> lines[base + (j - lo)] == crate::codec::track_line(
                (#[trigger] reg[((j + 1)) as TrackID]).filename@,
                reg[((j + 1)) as TrackID].millis,
            ),
    ensures
        crate::codec::run_parse(lines, base + (k - lo), st) == crate::codec::run_parse(
            lines,
            base + (hi - lo),
            crate::codec::PStateV {
                forest: done.push(
                    NodeV::List { label: label, kids: kid_nodes_range(reg, lo, hi) },
                ),
                tracks: track_pairs(reg, hi),
                tracks_seen: seen0 + track_paths_range(label, reg, lo, hi),
                ..st
            },
        ),
    decreases hi - k,
{
    if k == hi {
        assert(st == crate::codec::PStateV {
            forest: done.push(NodeV::List { label: label, kids: kid_nodes_range(reg, lo, hi) }),
            tracks: track_pairs(reg, hi),
            tracks_seen: seen0 + track_paths_range(label, reg, lo, hi),
            ..st
        });
    } else {
        let dl = done.len() as int;
        let track = reg[((k + 1)) as TrackID];
        let filename = track.filename@;
        let ms = track.millis;
        let canon = crate::util::canonical_label(filename);
        let tline = crate::codec::track_line(filename, ms);
        assert(lines[base + (k - lo)] == tline);
        lemma_position_chars_clean(ms);
        assert(tline.len() > 0);
        // It reads as a track line, not a header and not a list line.
        assert(tline[0] != '\x0B' && tline[0] != '\x0C') by {
            if filename.len() > 0 {
                assert(tline[0] == filename[0]);
            } else {
                assert(tline[0] == '\t');
            }
        }
        assert(tline != crate::codec::history_line()) by {
            assert(crate::codec::history_line()[0] == '\x0C');
        }
        // The tab sits right after the filename.
        assert forall|j: int| 0 <= j < filename.len() implies #[trigger] tline[j] != '\t' by {
            assert(tline[j] == filename[j]);
        }
        assert(tline[filename.len() as int] == '\t');
        crate::chars::lemma_idx_of_is(tline, '\t', filename.len() as int);
        assert(tline.subrange(0, filename.len() as int) =~= filename);
        assert(tline.subrange(filename.len() + 1 as int, tline.len() as int) =~= position_chars(
            ms,
        ));
        law_position_round_trip(ms);
        // The freshly produced path is new.
        assert(st.labels.push(canon) =~= seq![label, canon]);
        assert(seq![label, canon].drop_first() =~= seq![canon]);
        assert(crate::codec::join_path(seq![canon]) == canon);
        assert(crate::codec::join_path(seq![label, canon]) == label + seq!['/'] + canon);
        let full = label + seq!['/'] + canon;
        assert forall|q: int| 0 <= q < st.tracks_seen.len() implies #[trigger] st.tracks_seen[q]
            != full by {
            if q < seen0.len() {
                assert(st.tracks_seen[q] == seen0[q]);
                assert(seen0[q] != full);
            } else {
                let j2 = lo + (q - seen0.len());
                let cj = crate::util::canonical_label(reg[((j2 + 1)) as TrackID].filename@);
                assert(st.tracks_seen[q] == track_paths_range(label, reg, lo, k)[q - seen0.len()]);
                assert(st.tracks_seen[q] == label + seq!['/'] + cj);
                assert(cj != canon);
                lemma_join_two(label, cj, canon);
            }
        }
        crate::util::lemma_first_pos_is(st.tracks_seen, full, 0, st.tracks_seen.len() as int);
        // The new leaf goes to the end of the open list's kids.
        let tnode = NodeV::Track { label: canon, tid: ((k + 1)) as TrackID };
        let listnode = NodeV::List { label: label, kids: kid_nodes_range(reg, lo, k) };
        assert(seq![dl].drop_first() =~= Seq::<int>::empty());
        assert(st.forest[dl] == listnode);
        assert(st.forest[dl]->List_kids == kid_nodes_range(reg, lo, k));
        assert(crate::tree::kids_at(kid_nodes_range(reg, lo, k), Seq::<int>::empty())
            == kid_nodes_range(reg, lo, k));
        assert(crate::tree::kids_at(st.forest, seq![dl]) == kid_nodes_range(reg, lo, k));
        assert(crate::tree::set_kids_at(
            kid_nodes_range(reg, lo, k),
            Seq::<int>::empty(),
            kid_nodes_range(reg, lo, k).push(tnode),
        ) == kid_nodes_range(reg, lo, k).push(tnode));
        assert(kid_nodes_range(reg, lo, k).push(tnode) =~= kid_nodes_range(reg, lo, k + 1));
        let f2 = crate::tree::set_kids_at(
            st.forest,
            seq![dl],
            kid_nodes_range(reg, lo, k).push(tnode),
        );
        assert(f2 =~= done.push(
            NodeV::List { label: label, kids: kid_nodes_range(reg, lo, k + 1) },
        ));
        assert(st.tracks.push((filename, ms)) =~= track_pairs(reg, k + 1));
        assert(st.tracks_seen.push(full) =~= seen0 + track_paths_range(label, reg, lo, k + 1));
        let st2 = crate::codec::PStateV {
            forest: done.push(NodeV::List { label: label, kids: kid_nodes_range(reg, lo, k + 1) }),
            tracks: track_pairs(reg, k + 1),
            tracks_seen: seen0 + track_paths_range(label, reg, lo, k + 1),
            ..st
        };
        assert(st.tracks.len() + 2 <= i32::MAX);
        assert(crate::codec::pstep_track(st, tline, base + (k - lo) + 1) == Ok::<
            _,
            crate::codec::PErrV,
        >(st2));
        assert(crate::codec::pstep(st, tline, base + (k - lo) + 1) == Ok::<
            _,
            crate::codec::PErrV,
        >(st2));
        lemma_tracks_phase(lines, base, done, label, reg, lo, hi, seen0, st2, k + 1);
        assert(crate::codec::run_parse(lines, base + (k - lo), st) == crate::codec::run_parse(
            lines,
            base + (k - lo) + 1,
            st2,
        ));
        assert(crate::codec::PStateV {
            forest: done.push(NodeV::List { label: label, kids: kid_nodes_range(reg, lo, hi) }),
            tracks: track_pairs(reg, hi),
            tracks_seen: seen0 + track_paths_range(label, reg, lo, hi),
            ..st2
        } == crate::codec::PStateV {
            forest: done.push(NodeV::List { label: label, kids: kid_nodes_range(reg, lo, hi) }),
            tracks: track_pairs(reg, hi),
            tracks_seen: seen0 + track_paths_range(label, reg, lo, hi),
            ..st
        });
    }
}

/// The save-then-load round trip, for a document of one top-level list
/// holding any number of tracks: writing the document and parsing the
/// text back yields the same tree, every track's filename and position
/// exactly, and the history in order.  The list label, the filenames and
/// the history entries must be clean — no newline, no leading
/// indentation or header characters, no trailing carriage return — the
/// tracks must carry identifiers one up to their count, their labels the
/// canonical forms of their filenames, pairwise distinct, just as
/// `add_track` builds them.
#[verifier::rlimit(100)]
#[verifier::spinoff_prover]
pub proof fn law_round_trip_list(
    label: Seq<char>,
    reg: Map<TrackID, crate::model::Track>,
    n: int,
    hist: Seq<Seq<char>>,
)
    requires
        label.len() > 0,
        label[0] != '\x0B',
        label.last() != '\r',
        forall|j: int| 0 <= j < label.len() ==> label[j] != '\n',
        0 <= n,
        n + 1 <= i32::MAX,
        clean_tracks(reg, n),
        hist_nodup(hist),
        forall|i: int|
            0 <= i < hist.len() ==> (#[trigger] hist[i]).len() > 0 && hist[i].last() != '\r',
        forall|i: int, j: int|
            0 <= i < hist.len() && 0 <= j < hist[i].len() ==> #[trigger] hist[i][j] != '\n',
    ensures
        ({
            let f = seq![NodeV::List { label: label, kids: kid_nodes(reg, n) }];
            let r = crate::codec::parse_text(crate::codec::doc_text(f, reg, hist));
            &&& r is Ok
            &&& r->Ok_0.forest == f
            &&& r->Ok_0.tracks == track_pairs(reg, n)
            &&& r->Ok_0.history == hist
        }),
{
    let f = seq![NodeV::List { label: label, kids: kid_nodes(reg, n) }];
    let lline = crate::codec::indent_chars(1) + label;
    let tlines = Seq::new(
        n as nat,
        |j: int|
            crate::codec::track_line(
                reg[((j + 1)) as TrackID].filename@,
                reg[((j + 1)) as TrackID].millis,
            ),
    );
    let lines = seq![crate::codec::magic_line(), crate::codec::tracks_line(), lline] + tlines
        + seq![crate::codec::history_line()] + hist;
    crate::codec::lemma_indent_chars(1);
    assert(crate::codec::indent_chars(1) =~= seq!['\x0B']);
    // The document's lines are exactly these.
    lemma_kid_lines(reg, n, 0);
    assert(kid_nodes(reg, n).skip(0) =~= kid_nodes(reg, n));
    assert(crate::codec::forest_lines(kid_nodes(reg, n), 2, reg) =~= tlines);
    assert(crate::codec::node_lines(f[0], 1, reg) =~= seq![lline] + tlines);
    assert(f.drop_first() =~= Seq::<NodeV>::empty());
    assert(crate::codec::forest_lines(Seq::<NodeV>::empty(), 1, reg) =~= Seq::<Seq<char>>::empty());
    assert(crate::codec::forest_lines(f, 1, reg) =~= seq![lline] + tlines);
    assert(crate::codec::doc_lines(f, reg, hist) =~= lines);
    // Every line is clean, so splitting inverts joining.
    assert forall|i: int, j: int|
        0 <= i < lines.len() && 0 <= j < lines[i].len() implies #[trigger] lines[i][j]
        != '\n' by {
        if i == 2 {
            if j >= 1 {
                assert(lline[j] == label[j - 1]);
            }
        } else if 3 <= i < 3 + n {
            let t = reg[((i - 2)) as TrackID];
            lemma_position_chars_clean(t.millis);
            assert(lines[i] == crate::codec::track_line(t.filename@, t.millis));
            if j < t.filename@.len() {
                assert(lines[i][j] == t.filename@[j]);
            } else if j == t.filename@.len() {
                assert(lines[i][j] == '\t');
            } else {
                assert(lines[i][j] == position_chars(t.millis)[j - t.filename@.len() - 1]);
            }
        } else if i >= 4 + n {
            assert(lines[i] == hist[i - 4 - n]);
            assert(hist[i - 4 - n][j] != '\n');
        }
    }
    assert forall|i: int|
        0 <= i < lines.len() && (#[trigger] lines[i]).len() > 0 implies lines[i].last()
        != '\r' by {
        if i == 2 {
            assert(lline.last() == label.last());
        } else if 3 <= i < 3 + n {
            let t = reg[((i - 2)) as TrackID];
            lemma_position_chars_clean(t.millis);
            assert(lines[i] == crate::codec::track_line(t.filename@, t.millis));
            assert(lines[i].last() == position_chars(t.millis).last());
        } else if i >= 4 + n {
            assert(lines[i] == hist[i - 4 - n]);
        }
    }
    crate::codec::lemma_split_lines_unlines(lines);
    // Walk the parser over the lines.
    let st0 = crate::codec::init_pstate();
    let st1 = crate::codec::PStateV { mode: crate::codec::PMode::WantTrackHeader, ..st0 };
    assert(crate::codec::magic_line().subrange(0, 5) =~= crate::codec::magic_prefix());
    assert(crate::codec::pstep(st0, lines[0], 1) == Ok::<_, crate::codec::PErrV>(st1));
    let st2 = crate::codec::PStateV { mode: crate::codec::PMode::InTracks, ..st1 };
    assert(crate::codec::tracks_line().subrange(0, 7) =~= crate::codec::tracks_line());
    assert(crate::codec::pstep(st1, lines[1], 2) == Ok::<_, crate::codec::PErrV>(st2));
    // The list line.
    assert(lline[0] == '\x0B');
    assert(lline != crate::codec::history_line()) by {
        assert(crate::codec::history_line()[0] == '\x0C');
    }
    assert(crate::util::trim_start_idx(lline, |c: char| c == '\x0B') == 1) by {
        assert(lline.len() >= 2);
        assert(lline[1] == label[0]);
        crate::util::lemma_trim_start_idx_is(lline, |c: char| c == '\x0B', 1);
    }
    let st3 = compute_list_state(st2, label, lline);
    assert(lline.subrange(1, lline.len() as int) =~= label);
    assert(st2.labels.take(0) =~= Seq::<Seq<char>>::empty());
    assert(st2.chain.take(0) =~= Seq::<int>::empty());
    assert(Seq::<Seq<char>>::empty().push(label) =~= seq![label]);
    assert(crate::codec::join_path(seq![label]) == label);
    assert(crate::codec::seen_idx(st2.lists_seen, label) == 0);
    assert(crate::tree::kids_at(st2.forest, Seq::<int>::empty()) =~= Seq::<NodeV>::empty());
    assert(Seq::<NodeV>::empty().push(NodeV::List { label: label, kids: Seq::empty() }) =~= seq![
        NodeV::List { label: label, kids: Seq::empty() },
    ]);
    assert(crate::tree::set_kids_at(
        st2.forest,
        Seq::<int>::empty(),
        seq![NodeV::List { label: label, kids: Seq::empty() }],
    ) == seq![NodeV::List { label: label, kids: Seq::empty() }]);
    assert(Seq::<int>::empty().push(0) =~= seq![0int]);
    assert(crate::codec::pstep_list(st2, lline, 3) == Ok::<_, crate::codec::PErrV>(st3));
    assert(crate::codec::pstep(st2, lines[2], 3) == Ok::<_, crate::codec::PErrV>(st3));
    // The track lines, one leaf each.
    assert(kid_nodes(reg, 0) =~= Seq::<NodeV>::empty());
    assert(track_pairs(reg, 0) =~= Seq::<(Seq<char>, u64)>::empty());
    assert(track_paths(label, reg, 0) =~= Seq::<Seq<char>>::empty());
    assert(st3 == crate::codec::PStateV {
        forest: seq![NodeV::List { label: label, kids: kid_nodes(reg, 0) }],
        tracks: track_pairs(reg, 0),
        tracks_seen: track_paths(label, reg, 0),
        ..st3
    });
    let st3n = crate::codec::PStateV {
        forest: seq![NodeV::List { label: label, kids: kid_nodes(reg, 0) }],
        tracks: track_pairs(reg, 0),
        tracks_seen: track_paths(label, reg, 0),
        ..st3
    };
    assert forall|j: int|
        0 <= j < n implies lines[3 + j] == crate::codec::track_line(
        (#[trigger] reg[((j + 1)) as TrackID]).filename@,
        reg[((j + 1)) as TrackID].millis,
    ) by {
        assert(lines[3 + j] == tlines[j]);
    }
    assert(kid_nodes_range(reg, 0, 0) =~= kid_nodes(reg, 0));
    assert(track_paths_range(label, reg, 0, 0) =~= track_paths(label, reg, 0));
    assert(Seq::<NodeV>::empty().push(NodeV::List { label: label, kids: kid_nodes(reg, 0) })
        =~= st3n.forest);
    assert(st3n.tracks_seen =~= Seq::<Seq<char>>::empty() + track_paths_range(label, reg, 0, 0));
    assert(st3n.chain =~= seq![Seq::<NodeV>::empty().len() as int]);
    lemma_tracks_phase(
        lines,
        3,
        Seq::<NodeV>::empty(),
        label,
        reg,
        0,
        n,
        Seq::<Seq<char>>::empty(),
        st3n,
        0,
    );
    assert(Seq::<NodeV>::empty().push(
        NodeV::List { label: label, kids: kid_nodes_range(reg, 0, n) },
    ) =~= seq![NodeV::List { label: label, kids: kid_nodes(reg, n) }]);
    assert(Seq::<Seq<char>>::empty() + track_paths_range(label, reg, 0, n) =~= track_paths(
        label,
        reg,
        n,
    ));
    let st4 = crate::codec::PStateV {
        forest: seq![NodeV::List { label: label, kids: kid_nodes(reg, n) }],
        tracks: track_pairs(reg, n),
        tracks_seen: track_paths(label, reg, n),
        ..st3n
    };
    assert(crate::codec::run_parse(lines, 3, st3) == crate::codec::run_parse(lines, 3 + n, st4));
    // The history header.
    assert(lines[3 + n] == crate::codec::history_line());
    let st5 = crate::codec::PStateV { mode: crate::codec::PMode::InHistory, ..st4 };
    assert(crate::codec::pstep(st4, lines[3 + n], 3 + n + 1) == Ok::<_, crate::codec::PErrV>(st5));
    assert(crate::codec::run_parse(lines, 3 + n, st4) == crate::codec::run_parse(
        lines,
        4 + n,
        st5,
    ));
    // The history entries.
    assert(st5.history =~= hist.take(0));
    assert forall|j: int| 0 <= j < hist.len() implies lines[4 + n + j] == hist[j] by {}
    lemma_history_phase(lines, 4 + n, hist, st5, 0);
    let fin = crate::codec::PStateV { history: hist, ..st5 };
    assert(crate::codec::run_parse(lines, 2, st2) == crate::codec::run_parse(lines, 3, st3));
    assert(crate::codec::run_parse(lines, 1, st1) == crate::codec::run_parse(lines, 2, st2));
    assert(crate::codec::run_parse(lines, 0, st0) == crate::codec::run_parse(lines, 1, st1));
    assert(crate::codec::run_parse(lines, 0, st0) == Ok::<_, crate::codec::PErrV>(fin));
    assert(crate::codec::parse_text(crate::codec::doc_text(f, reg, hist)) == Ok::<
        _,
        crate::codec::PErrV,
    >(fin));
    assert(fin.forest =~= f);
}

/// The lines of a run of track leaves: one per registered track.
proof fn lemma_kid_lines(reg: Map<TrackID, crate::model::Track>, n: int, k: int)
    requires
        0 <= k <= n,
        n + 1 <= i32::MAX,
        forall|i: int| 0 <= i < n ==> reg.contains_key((#[trigger] (i + 1)) as TrackID),
    ensures
        crate::codec::forest_lines(kid_nodes(reg, n).skip(k), 2, reg) =~= Seq::new(
            (n - k) as nat,
            |j: int|
                crate::codec::track_line(
                    reg[((k + j + 1)) as TrackID].filename@,
                    reg[((k + j + 1)) as TrackID].millis,
                ),
        ),
    decreases n - k,
{
    let kids = kid_nodes(reg, n).skip(k);
    if k == n {
        assert(kids =~= Seq::<NodeV>::empty());
    } else {
        assert(kids.len() == n - k);
        assert(kids[0] == kid_nodes(reg, n)[k]);
        assert(reg.contains_key(((k + 1)) as TrackID));
        assert(crate::codec::node_lines(kids[0], 2, reg) =~= seq![
            crate::codec::track_line(
                reg[((k + 1)) as TrackID].filename@,
                reg[((k + 1)) as TrackID].millis,
            ),
        ]);
        assert(kids.drop_first() =~= kid_nodes(reg, n).skip(k + 1));
        lemma_kid_lines(reg, n, k + 1);
    }
}

/// The parser's state after the single list line.
spec fn compute_list_state(
    st2: crate::codec::PStateV,
    label: Seq<char>,
    lline: Seq<char>,
) -> crate::codec::PStateV {
    crate::codec::PStateV {
        forest: seq![NodeV::List { label: label, kids: Seq::empty() }],
        labels: seq![label],
        chain: seq![0],
        lists_seen: seq![
            crate::codec::SeenV { path: label, labels: seq![label], loc: seq![0] },
        ],
        ..st2
    }
}

} // verus!
