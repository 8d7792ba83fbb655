//! The document format: a text header, one line per tree node — list
//! lines indented with vertical tabs, track lines as filename, tab and
//! position — and a trailing history block.  Documents are written
//! gzip-compressed and read back either compressed or plain.

use vstd::prelude::*;
use vstd::string::*;
use std::io::Read;
use std::io::Write;
use crate::chars::{
    all_digits, chars_of, dec_chars, dec_val, digit_char, digit_val, is_digit, split_on,
    string_from_chars,
};
use crate::model::{Registry, Track, TrackID};
use crate::tree::{kids_at, label_of, node_at, set_kids_at, valid_loc, valid_ploc, view_forest,
    view_node, ListNode, Node, NodeV, TrackNode};
use crate::util::views_of;

verus! {

/// The header that opens every document; the version behind the tab is
/// written but not interpreted on read.
pub open spec fn magic_line() -> Seq<char> {
    seq!['\x0C', 'T', 'L', 'M', '\t', '1', '0', '0']
}

/// What the first line must start with.
pub open spec fn magic_prefix() -> Seq<char> {
    seq!['\x0C', 'T', 'L', 'M', '\t']
}

/// The header that opens the tracks section.
pub open spec fn tracks_line() -> Seq<char> {
    seq!['\x0C', 'T', 'R', 'A', 'C', 'K', 'S']
}

/// The exact line that switches from the tracks to the history section.
pub open spec fn history_line() -> Seq<char> {
    seq!['\x0C', 'H', 'I', 'S', 'T', 'O', 'R', 'Y']
}

/// Whether `s` begins with `p`.
pub open spec fn has_prefix(s: Seq<char>, p: Seq<char>) -> bool {
    s.len() >= p.len() && s.subrange(0, p.len() as int) == p
}

/// `d` vertical tabs: the indentation of a list line at depth `d`.
pub open spec fn indent_chars(d: nat) -> Seq<char>
    decreases d,
{
    if d == 0 {
        Seq::empty()
    } else {
        seq!['\x0B'] + indent_chars((d - 1) as nat)
    }
}

pub proof fn lemma_indent_chars(d: nat)
    ensures
        indent_chars(d).len() == d,
        forall|j: int| 0 <= j < d ==> indent_chars(d)[j] == '\x0B',
    decreases d,
{
    if d > 0 {
        lemma_indent_chars((d - 1) as nat);
    }
}

/// The last three decimal digits of a position: its milliseconds.
pub open spec fn frac3(f: int) -> Seq<char> {
    seq![digit_char(f / 100 % 10), digit_char(f / 10 % 10), digit_char(f % 10)]
}

/// A playback position in seconds with three decimals.
pub open spec fn position_chars(ms: u64) -> Seq<char> {
    dec_chars((ms / 1000) as nat) + seq!['.'] + frac3((ms % 1000) as int)
}

/// A track line: the filename, a tab and the position.
pub open spec fn track_line(filename: Seq<char>, ms: u64) -> Seq<char> {
    filename + seq!['\t'] + position_chars(ms)
}

/// The lines a node contributes, in document order.  A track whose
/// identifier has no registry record contributes nothing.
pub open spec fn node_lines(n: NodeV, depth: nat, reg: Map<TrackID, Track>) -> Seq<Seq<char>>
    decreases n, 0int,
{
    match n {
        NodeV::List { label, kids } => seq![indent_chars(depth) + label] + forest_lines(
            kids,
            depth + 1,
            reg,
        ),
        NodeV::Track { label, tid } => if reg.contains_key(tid) {
            seq![track_line(reg[tid].filename@, reg[tid].millis)]
        } else {
            Seq::empty()
        },
    }
}

/// The lines a forest contributes, in document order.
pub open spec fn forest_lines(kids: Seq<NodeV>, depth: nat, reg: Map<TrackID, Track>) -> Seq<
    Seq<char>,
>
    decreases kids, 1int,
{
    if kids.len() == 0 {
        Seq::empty()
    } else {
        node_lines(kids[0], depth, reg) + forest_lines(kids.drop_first(), depth, reg)
    }
}

/// The first `i` kids' lines split off the rest.
pub proof fn lemma_forest_lines_snoc(kids: Seq<NodeV>, i: int, depth: nat, reg: Map<TrackID, Track>)
    requires
        0 <= i < kids.len(),
    ensures
        forest_lines(kids.take(i + 1), depth, reg) =~= forest_lines(kids.take(i), depth, reg)
            + node_lines(kids[i], depth, reg),
    decreases i,
{
    if i == 0 {
        assert(kids.take(0) =~= Seq::<NodeV>::empty());
        assert(kids.take(1).drop_first() =~= Seq::<NodeV>::empty());
        assert(kids.take(1)[0] == kids[0]);
        assert(forest_lines(Seq::<NodeV>::empty(), depth, reg) =~= Seq::<Seq<char>>::empty());
        assert(forest_lines(kids.take(1), depth, reg) =~= node_lines(kids[0], depth, reg));
    } else {
        lemma_forest_lines_snoc(kids.drop_first(), i - 1, depth, reg);
        assert(kids.take(i + 1)[0] == kids[0]);
        assert(kids.take(i + 1).drop_first() =~= kids.drop_first().take(i));
        assert(kids.take(i)[0] == kids[0]);
        assert(kids.take(i).drop_first() =~= kids.drop_first().take(i - 1));
        assert(kids.drop_first()[i - 1] == kids[i]);
    }
}

/// Lines joined with one newline after each.
pub open spec fn unlines(lines: Seq<Seq<char>>) -> Seq<char>
    decreases lines.len(),
{
    if lines.len() == 0 {
        Seq::empty()
    } else {
        lines[0] + seq!['\n'] + unlines(lines.drop_first())
    }
}

/// One line joins as itself plus a newline.
pub proof fn lemma_unlines_single(l: Seq<char>)
    ensures
        unlines(seq![l]) =~= l + seq!['\n'],
{
    assert(seq![l].drop_first() =~= Seq::<Seq<char>>::empty());
    assert(unlines(Seq::<Seq<char>>::empty()) =~= Seq::<char>::empty());
    assert(seq![l][0] == l);
}

pub proof fn lemma_unlines_concat(a: Seq<Seq<char>>, b: Seq<Seq<char>>)
    ensures
        unlines(a + b) =~= unlines(a) + unlines(b),
    decreases a.len(),
{
    if a.len() == 0 {
        assert(a + b =~= b);
    } else {
        lemma_unlines_concat(a.drop_first(), b);
        assert((a + b)[0] == a[0]);
        assert((a + b).drop_first() =~= a.drop_first() + b);
    }
}

/// All lines of a document: the two headers, the tree, the history
/// header and the history entries.
pub open spec fn doc_lines(
    f: Seq<NodeV>,
    reg: Map<TrackID, Track>,
    hist: Seq<Seq<char>>,
) -> Seq<Seq<char>> {
    seq![magic_line(), tracks_line()] + forest_lines(f, 1, reg) + seq![history_line()] + hist
}

/// The full text of a document.
pub open spec fn doc_text(f: Seq<NodeV>, reg: Map<TrackID, Track>, hist: Seq<Seq<char>>) -> Seq<
    char,
> {
    unlines(doc_lines(f, reg, hist))
}

/// Appends the characters of `s`.
fn write_str_chars(out: &mut Vec<char>, s: &str)
    ensures
        final(out)@ == old(out)@ + s@,
{
    let mut cs = chars_of(s);
    out.append(&mut cs);
}

/// Appends a position: seconds, a dot, three millisecond digits.
fn write_position(out: &mut Vec<char>, ms: u64)
    ensures
        final(out)@ == old(out)@ + position_chars(ms),
{
    let ghost pre = out@;
    let mut secs = crate::chars::u64_to_chars(ms / 1000);
    out.append(&mut secs);
    out.push('.');
    let f = ms % 1000;
    let d1: char = (((f / 100) as u8) + 48) as char;
    let d2: char = (((f / 10 % 10) as u8) + 48) as char;
    let d3: char = (((f % 10) as u8) + 48) as char;
    out.push(d1);
    out.push(d2);
    out.push(d3);
    proof {
        assert(d1 == digit_char(f as int / 100 % 10)) by {
            assert(f / 100 < 10);
            assert(f as int / 100 % 10 == f as int / 100);
        }
        assert(d2 == digit_char(f as int / 10 % 10));
        assert(d3 == digit_char(f as int % 10));
        assert(out@ =~= pre + position_chars(ms));
    }
}

/// Appends one newline.
fn write_nl(out: &mut Vec<char>)
    ensures
        final(out)@ == old(out)@ + seq!['\n'],
{
    out.push('\n');
    proof {
        assert(out@ =~= old(out)@ + seq!['\n']);
    }
}

/// Appends the lines of a forest: one indented line per list, one
/// filename-tab-position line per registered track.
fn write_forest(out: &mut Vec<char>, kids: &Vec<Node>, ind: &Vec<char>, reg: &Registry)
    requires
        forall|j: int| 0 <= j < ind@.len() ==> ind@[j] == '\x0B',
    ensures
        final(out)@ == old(out)@ + unlines(
            forest_lines(view_forest(kids@), ind@.len() as nat, reg.m()),
        ),
    decreases kids@,
{
    let ghost vf = view_forest(kids@);
    let ghost depth = ind@.len() as nat;
    proof {
        crate::tree::lemma_view_forest(kids@);
        lemma_indent_chars(depth);
        assert(ind@ =~= indent_chars(depth));
    }
    let n: usize = kids.len();
    let mut i: usize = 0;
    while i < n
        invariant
            n == kids@.len(),
            i <= n,
            vf == view_forest(kids@),
            depth == ind@.len() as nat,
            forall|j: int| 0 <= j < ind@.len() ==> ind@[j] == '\x0B',
            ind@ == indent_chars(depth),
            vf.len() == n,
            forall|j: int| 0 <= j < n ==> #[trigger] vf[j] == view_node(kids@[j]),
            out@ =~= old(out)@ + unlines(forest_lines(vf.take(i as int), depth, reg.m())),
        decreases n - i,
    {
        let ghost pre = out@;
        let node = &kids[i];
        match node {
            Node::List(l) => {
                let mut indcopy = crate::chars::clone_chars(ind);
                out.append(&mut indcopy);
                write_str_chars(out, l.label.as_str());
                write_nl(out);
                let mut ind2 = crate::chars::clone_chars(ind);
                ind2.push('\x0B');
                proof {
                    lemma_indent_chars(depth + 1);
                    assert(ind2@ =~= indent_chars(depth + 1));
                }
                write_forest(out, &l.kids, &ind2, reg);
                proof {
                    let own = node_lines(vf[i as int], depth, reg.m());
                    assert(own == seq![indent_chars(depth) + l.label@] + forest_lines(
                        view_forest(l.kids@),
                        depth + 1,
                        reg.m(),
                    ));
                    assert(out@ =~= pre + unlines(own)) by {
                        lemma_unlines_concat(
                            seq![indent_chars(depth) + l.label@],
                            forest_lines(view_forest(l.kids@), depth + 1, reg.m()),
                        );
                        lemma_unlines_single(indent_chars(depth) + l.label@);
                    }
                }
            },
            Node::Track(t) => {
                match reg.get(t.tid) {
                    Some(track) => {
                        write_str_chars(out, track.filename.as_str());
                        out.push('\t');
                        write_position(out, track.millis);
                        write_nl(out);
                        proof {
                            let own = node_lines(vf[i as int], depth, reg.m());
                            assert(own == seq![
                                track_line(
                                    reg.m()[t.tid].filename@,
                                    reg.m()[t.tid].millis,
                                ),
                            ]);
                            lemma_unlines_single(
                                track_line(reg.m()[t.tid].filename@, reg.m()[t.tid].millis),
                            );
                            assert(own =~= seq![
                                track_line(reg.m()[t.tid].filename@, reg.m()[t.tid].millis),
                            ]);
                            assert(out@ =~= pre + unlines(own));
                        }
                    },
                    None => {
                        proof {
                            let own = node_lines(vf[i as int], depth, reg.m());
                            assert(own =~= Seq::<Seq<char>>::empty());
                            assert(unlines(own) =~= Seq::<char>::empty());
                            assert(out@ =~= pre + unlines(own));
                        }
                    },
                }
            },
        }
        proof {
            lemma_forest_lines_snoc(vf, i as int, depth, reg.m());
            lemma_unlines_concat(
                forest_lines(vf.take(i as int), depth, reg.m()),
                node_lines(vf[i as int], depth, reg.m()),
            );
            assert(out@ =~= old(out)@ + unlines(forest_lines(vf.take(i + 1), depth, reg.m())));
        }
        i = i + 1;
    }
    proof {
        assert(vf.take(n as int) =~= vf);
    }
}

/// The whole document text for a tree, a registry and a history.
pub fn write_doc(forest: &Vec<Node>, reg: &Registry, history: &Vec<String>) -> (out: Vec<char>)
    ensures
        out@ == doc_text(view_forest(forest@), reg.m(), views_of(history@)),
{
    let mut out: Vec<char> = Vec::new();
    // "\x0CTLM\t100\n\x0CTRACKS\n"
    out.push('\x0C');
    out.push('T');
    out.push('L');
    out.push('M');
    out.push('\t');
    out.push('1');
    out.push('0');
    out.push('0');
    out.push('\n');
    out.push('\x0C');
    out.push('T');
    out.push('R');
    out.push('A');
    out.push('C');
    out.push('K');
    out.push('S');
    out.push('\n');
    proof {
        assert(out@ =~= magic_line() + seq!['\n'] + tracks_line() + seq!['\n']);
        assert(seq![magic_line(), tracks_line()] =~= seq![magic_line()] + seq![tracks_line()]);
        lemma_unlines_concat(seq![magic_line()], seq![tracks_line()]);
        lemma_unlines_single(magic_line());
        lemma_unlines_single(tracks_line());
        assert(unlines(seq![magic_line(), tracks_line()]) =~= magic_line() + seq!['\n']
            + tracks_line() + seq!['\n']);
    }
    let ind: Vec<char> = Vec::new();
    let mut ind1: Vec<char> = Vec::new();
    ind1.push('\x0B');
    write_forest(&mut out, forest, &ind1, reg);
    let ghost after_tree = out@;
    out.push('\x0C');
    out.push('H');
    out.push('I');
    out.push('S');
    out.push('T');
    out.push('O');
    out.push('R');
    out.push('Y');
    out.push('\n');
    proof {
        assert(out@ =~= after_tree + (history_line() + seq!['\n']));
    }
    let ghost before_hist = out@;
    let n: usize = history.len();
    let mut i: usize = 0;
    while i < n
        invariant
            n == history@.len(),
            i <= n,
            out@ =~= before_hist + unlines(views_of(history@).take(i as int)),
        decreases n - i,
    {
        let ghost pre = out@;
        write_str_chars(&mut out, history[i].as_str());
        write_nl(&mut out);
        proof {
            let hv = views_of(history@);
            assert(hv.take(i + 1).drop_last() =~= hv.take(i as int));
            lemma_unlines_snoc(hv.take(i + 1));
            assert(hv.take(i + 1).last() == hv[i as int]);
            assert(out@ =~= before_hist + unlines(hv.take(i + 1)));
        }
        i = i + 1;
    }
    proof {
        let f = view_forest(forest@);
        let hv = views_of(history@);
        assert(hv.take(n as int) =~= hv);
        lemma_unlines_concat(seq![magic_line(), tracks_line()], forest_lines(f, 1, reg.m()));
        lemma_unlines_concat(
            seq![magic_line(), tracks_line()] + forest_lines(f, 1, reg.m()),
            seq![history_line()],
        );
        lemma_unlines_concat(
            seq![magic_line(), tracks_line()] + forest_lines(f, 1, reg.m()) + seq![history_line()],
            hv,
        );
        lemma_unlines_single(history_line());
        assert(ind1@ =~= indent_chars(1)) by {
            lemma_indent_chars(1);
        }
        assert(out@ =~= doc_text(f, reg.m(), hv));
    }
    out
}

/// Splitting a line off the end of a line list.
pub proof fn lemma_unlines_snoc(lines: Seq<Seq<char>>)
    requires
        lines.len() > 0,
    ensures
        unlines(lines) =~= unlines(lines.drop_last()) + lines.last() + seq!['\n'],
    decreases lines.len(),
{
    if lines.len() == 1 {
        assert(lines.drop_last() =~= Seq::<Seq<char>>::empty());
        assert(lines.drop_first() =~= Seq::<Seq<char>>::empty());
        assert(lines.last() == lines[0]);
    } else {
        lemma_unlines_snoc(lines.drop_first());
        assert(lines.drop_last()[0] == lines[0]);
        assert(lines.drop_last().drop_first() =~= lines.drop_first().drop_last());
        assert(lines.drop_first().last() == lines.last());
    }
}

/// Joined lines split back into the lines plus one empty tail piece.
pub proof fn lemma_split_on_unlines(ls: Seq<Seq<char>>)
    requires
        ls.len() > 0,
        forall|i: int, j: int|
            0 <= i < ls.len() && 0 <= j < ls[i].len() ==> #[trigger] ls[i][j] != '\n',
    ensures
        split_on(unlines(ls), '\n') =~= ls.push(Seq::<char>::empty()),
    decreases ls.len(),
{
    let t = unlines(ls);
    let l0 = ls[0];
    assert forall|j: int| 0 <= j < l0.len() implies t[j] != '\n' by {
        assert(t[j] == l0[j]);
        assert(ls[0][j] != '\n');
    }
    assert(t[l0.len() as int] == '\n');
    crate::chars::lemma_idx_of_is(t, '\n', l0.len() as int);
    let i = l0.len() as int;
    assert(t.subrange(0, i) =~= l0);
    assert(t.subrange(i + 1, t.len() as int) =~= unlines(ls.drop_first()));
    if ls.len() == 1 {
        assert(ls.drop_first() =~= Seq::<Seq<char>>::empty());
        assert(unlines(ls.drop_first()) =~= Seq::<char>::empty());
        assert(crate::chars::idx_of(Seq::<char>::empty(), '\n') == 0);
        assert(split_on(Seq::<char>::empty(), '\n') =~= seq![Seq::<char>::empty()]);
        assert(split_on(t, '\n') =~= seq![l0] + seq![Seq::<char>::empty()]);
    } else {
        assert(forall|i2: int, j: int|
            0 <= i2 < ls.drop_first().len() && 0 <= j < ls.drop_first()[i2].len()
                ==> #[trigger] ls.drop_first()[i2][j] != '\n');
        lemma_split_on_unlines(ls.drop_first());
        assert(split_on(t, '\n') =~= seq![l0] + split_on(unlines(ls.drop_first()), '\n'));
    }
}

/// Joined lines end with a newline.
pub proof fn lemma_unlines_ends_nl(ls: Seq<Seq<char>>)
    requires
        ls.len() > 0,
    ensures
        unlines(ls).len() > 0,
        unlines(ls).last() == '\n',
{
    lemma_unlines_snoc(ls);
}

/// Splitting inverts joining: clean lines — no embedded newline, no
/// trailing carriage return — come back exactly.
pub proof fn lemma_split_lines_unlines(ls: Seq<Seq<char>>)
    requires
        ls.len() > 0,
        forall|i: int, j: int|
            0 <= i < ls.len() && 0 <= j < ls[i].len() ==> #[trigger] ls[i][j] != '\n',
        forall|i: int| 0 <= i < ls.len() && (#[trigger] ls[i]).len() > 0 ==> ls[i].last() != '\r',
    ensures
        split_lines(unlines(ls)) =~= ls,
{
    let t = unlines(ls);
    lemma_split_on_unlines(ls);
    lemma_unlines_ends_nl(ls);
    let raw = split_on(t, '\n');
    assert(raw =~= ls.push(Seq::<char>::empty()));
    let cut = raw.take(raw.len() - 1);
    assert(cut =~= ls);
    assert forall|i: int| 0 <= i < ls.len() implies strip_cr(#[trigger] cut[i]) == ls[i] by {
        assert(cut[i] == ls[i]);
    }
    assert(split_lines(t) =~= ls);
}

/// The parser's mode: the two headers, then the tracks section, then the
/// history section.
pub enum PMode {
    WantMagic,
    WantTrackHeader,
    InTracks,
    InHistory,
}

/// Why a document was rejected.
#[derive(Clone, Copy, Debug, PartialEq, Eq, Structural)]
pub enum ParseErrorKind {
    /// The first line does not open a track-list document.
    NotTlm,
    /// The tracks header is missing.
    MissingTracks,
    /// A track line has no tab between filename and position.
    BadTrackLine,
    /// A list line is nested more than one level below its predecessor.
    BadIndent,
    /// The document holds more tracks than identifiers exist.
    TooManyTracks,
    /// The bytes are neither a gzip stream of text nor plain text.
    Unreadable,
}

/// A parse failure: the 1-based line it happened on, and why.
#[derive(Clone, Copy, Debug, PartialEq, Eq, Structural)]
pub struct ParseError {
    pub lino: usize,
    pub kind: ParseErrorKind,
}

/// The words of a parse failure kind.
pub open spec fn kind_text(k: ParseErrorKind) -> Seq<char> {
    match k {
        ParseErrorKind::NotTlm => "not a .tlm file"@,
        ParseErrorKind::MissingTracks => "missing TRACKS"@,
        ParseErrorKind::BadTrackLine => "failed to read track"@,
        ParseErrorKind::BadIndent => "unexpected nesting"@,
        ParseErrorKind::TooManyTracks => "too many tracks"@,
        ParseErrorKind::Unreadable => "unreadable file"@,
    }
}

impl ParseError {
    /// The failure as one line of text, with its 1-based line number.
    pub fn message(&self) -> (s: String)
        ensures
            s@ == "error:"@ + crate::chars::dec_chars(self.lino as nat) + ": "@ + kind_text(
                self.kind,
            ),
    {
        let mut s = String::from_str("error:");
        let num = crate::chars::u64_to_string(self.lino as u64);
        s.append(num.as_str());
        s.append(": ");
        match self.kind {
            ParseErrorKind::NotTlm => s.append("not a .tlm file"),
            ParseErrorKind::MissingTracks => s.append("missing TRACKS"),
            ParseErrorKind::BadTrackLine => s.append("failed to read track"),
            ParseErrorKind::BadIndent => s.append("unexpected nesting"),
            ParseErrorKind::TooManyTracks => s.append("too many tracks"),
            ParseErrorKind::Unreadable => s.append("unreadable file"),
        }
        s
    }
}

/// The mathematical form of a parse failure.
pub struct PErrV {
    pub lino: int,
    pub kind: ParseErrorKind,
}

/// A list path the parser has already seen: its slash-joined path, its
/// label chain and the location of its node.
#[verifier::ext_equal]
pub struct SeenV {
    pub path: Seq<char>,
    pub labels: Seq<Seq<char>>,
    pub loc: Seq<int>,
}

/// The parser's state between lines.
#[verifier::ext_equal]
pub struct PStateV {
    pub mode: PMode,
    pub forest: Seq<NodeV>,
    pub labels: Seq<Seq<char>>,
    pub chain: Seq<int>,
    pub tracks: Seq<(Seq<char>, u64)>,
    pub history: Seq<Seq<char>>,
    pub lists_seen: Seq<SeenV>,
    pub tracks_seen: Seq<Seq<char>>,
}

/// Labels joined with slashes.
pub open spec fn join_path(ls: Seq<Seq<char>>) -> Seq<char>
    decreases ls.len(),
{
    if ls.len() == 0 {
        Seq::empty()
    } else if ls.len() == 1 {
        ls[0]
    } else {
        ls[0] + seq!['/'] + join_path(ls.drop_first())
    }
}

/// The first seen entry with this path, or the entry count.
pub open spec fn seen_idx(seen: Seq<SeenV>, path: Seq<char>) -> int
    decreases seen.len(),
{
    if seen.len() == 0 {
        0
    } else if seen[0].path == path {
        0
    } else {
        1 + seen_idx(seen.drop_first(), path)
    }
}

pub proof fn lemma_seen_idx_is(seen: Seq<SeenV>, path: Seq<char>, k: int)
    requires
        0 <= k <= seen.len(),
        k < seen.len() ==> seen[k].path == path,
        forall|j: int| 0 <= j < k ==> (#[trigger] seen[j]).path != path,
    ensures
        seen_idx(seen, path) == k,
    decreases seen.len(),
{
    if seen.len() == 0 {
    } else if seen[0].path == path {
        assert(k == 0);
    } else {
        assert(forall|j: int| 0 <= j < k - 1 ==> seen.drop_first()[j] == seen[j + 1]);
        lemma_seen_idx_is(seen.drop_first(), path, k - 1);
    }
}

pub proof fn lemma_seen_idx_bound(seen: Seq<SeenV>, path: Seq<char>)
    ensures
        0 <= seen_idx(seen, path) <= seen.len(),
        seen_idx(seen, path) < seen.len() ==> seen[seen_idx(seen, path)].path == path,
    decreases seen.len(),
{
    if seen.len() > 0 && seen[0].path != path {
        lemma_seen_idx_bound(seen.drop_first(), path);
    }
}

/// Whether a position string is well formed: decimal digits with at most
/// one dot and at least one digit.
pub open spec fn valid_position(s: Seq<char>) -> bool {
    let di = crate::chars::idx_of(s, '.');
    &&& s.len() > 0
    &&& (if di < s.len() {
        all_digits(s.subrange(0, di)) && all_digits(s.subrange(di + 1, s.len() as int)) && s.len()
            > 1
    } else {
        all_digits(s)
    })
}

/// An integer clamped into the `u64` range.
pub open spec fn clamp_u64(v: int) -> u64 {
    if v > u64::MAX {
        u64::MAX
    } else if v < 0 {
        0
    } else {
        v as u64
    }
}

/// The milliseconds the first three fraction digits denote; missing
/// digits count as zero, further digits are cut off.
pub open spec fn fr_ms(fr: Seq<char>) -> int {
    (if fr.len() >= 1 {
        digit_val(fr[0]) * 100
    } else {
        0
    }) + (if fr.len() >= 2 {
        digit_val(fr[1]) * 10
    } else {
        0
    }) + (if fr.len() >= 3 {
        digit_val(fr[2])
    } else {
        0
    })
}

/// The position a string denotes, in milliseconds: zero when malformed,
/// clamped into range otherwise.
pub open spec fn position_val(s: Seq<char>) -> u64 {
    if !valid_position(s) {
        0
    } else {
        let di = crate::chars::idx_of(s, '.');
        if di >= s.len() {
            clamp_u64(dec_val(s) * 1000)
        } else {
            clamp_u64(dec_val(s.subrange(0, di)) * 1000 + fr_ms(s.subrange(di + 1, s.len() as int)))
        }
    }
}

/// One list line: adjust the chain to the line's indentation, then enter
/// the named list, creating it unless its path was already seen.
pub open spec fn pstep_list(st: PStateV, line: Seq<char>, lino: int) -> Result<PStateV, PErrV> {
    let ind = crate::util::trim_start_idx(line, |c: char| c == '\x0B');
    let name = line.subrange(ind, line.len() as int);
    let prev = st.labels.len() as int;
    if ind > prev + 1 {
        Err(PErrV { lino, kind: ParseErrorKind::BadIndent })
    } else {
        let keep = ind - 1;
        let labels0 = st.labels.take(keep);
        let chain0 = st.chain.take(keep);
        let full = join_path(labels0.push(name));
        let si = seen_idx(st.lists_seen, full);
        if si < st.lists_seen.len() {
            Ok(
                PStateV {
                    labels: st.lists_seen[si].labels,
                    chain: st.lists_seen[si].loc,
                    ..st
                },
            )
        } else {
            let sub = kids_at(st.forest, chain0);
            let idx = sub.len() as int;
            let f2 = set_kids_at(
                st.forest,
                chain0,
                sub.push(NodeV::List { label: name, kids: Seq::empty() }),
            );
            let labels1 = labels0.push(name);
            let chain1 = chain0.push(idx);
            Ok(
                PStateV {
                    forest: f2,
                    labels: labels1,
                    chain: chain1,
                    lists_seen: st.lists_seen.push(
                        SeenV { path: full, labels: labels1, loc: chain1 },
                    ),
                    ..st
                },
            )
        }
    }
}

/// One track line: filename, tab, position.  The track gets the next
/// sequential identifier and a leaf under the current chain, its label
/// canonical and made unique against paths already produced.
pub open spec fn pstep_track(st: PStateV, line: Seq<char>, lino: int) -> Result<PStateV, PErrV> {
    let ti = crate::chars::idx_of(line, '\t');
    if ti >= line.len() {
        Err(PErrV { lino, kind: ParseErrorKind::BadTrackLine })
    } else if st.tracks.len() + 2 > i32::MAX {
        Err(PErrV { lino, kind: ParseErrorKind::TooManyTracks })
    } else {
        let filename = line.subrange(0, ti);
        let rest = line.subrange(ti + 1, line.len() as int);
        let ms = position_val(rest);
        let tid = (st.tracks.len() + 1) as TrackID;
        let canon = crate::util::canonical_label(filename);
        let full = join_path(st.labels.push(canon));
        let dup = crate::util::first_pos(st.tracks_seen, full, 0) < st.tracks_seen.len();
        let lab = if dup {
            canon + seq![' ', '('] + dec_chars(tid as nat) + seq![')']
        } else {
            canon
        };
        let seen2 = if dup {
            st.tracks_seen
        } else {
            st.tracks_seen.push(full)
        };
        let sub = kids_at(st.forest, st.chain);
        let f2 = set_kids_at(st.forest, st.chain, sub.push(NodeV::Track { label: lab, tid }));
        Ok(
            PStateV {
                forest: f2,
                tracks: st.tracks.push((filename, ms)),
                tracks_seen: seen2,
                ..st
            },
        )
    }
}

/// One non-empty line, in the current mode.
pub open spec fn pstep(st: PStateV, line: Seq<char>, lino: int) -> Result<PStateV, PErrV>
    recommends
        line.len() > 0,
{
    if st.mode is InTracks && line == history_line() {
        Ok(PStateV { mode: PMode::InHistory, ..st })
    } else {
        match st.mode {
            PMode::WantMagic => if has_prefix(line, magic_prefix()) {
                Ok(PStateV { mode: PMode::WantTrackHeader, ..st })
            } else {
                Err(PErrV { lino, kind: ParseErrorKind::NotTlm })
            },
            PMode::WantTrackHeader => if has_prefix(line, tracks_line()) {
                Ok(PStateV { mode: PMode::InTracks, ..st })
            } else {
                Err(PErrV { lino, kind: ParseErrorKind::MissingTracks })
            },
            PMode::InTracks => if line[0] == '\x0B' {
                pstep_list(st, line, lino)
            } else {
                pstep_track(st, line, lino)
            },
            PMode::InHistory => if crate::util::first_pos(st.history, line, 0) < st.history.len() {
                Ok(st)
            } else {
                Ok(PStateV { history: st.history.push(line), ..st })
            },
        }
    }
}

/// The parser's start state.
pub open spec fn init_pstate() -> PStateV {
    PStateV {
        mode: PMode::WantMagic,
        forest: Seq::empty(),
        labels: Seq::empty(),
        chain: Seq::empty(),
        tracks: Seq::empty(),
        history: Seq::empty(),
        lists_seen: Seq::empty(),
        tracks_seen: Seq::empty(),
    }
}

/// Runs the parser over `lines[i..]`; empty lines are skipped, and line
/// numbers are 1-based.
pub open spec fn run_parse(lines: Seq<Seq<char>>, i: int, st: PStateV) -> Result<PStateV, PErrV>
    decreases lines.len() - i,
{
    if i < 0 || i >= lines.len() {
        Ok(st)
    } else if lines[i].len() == 0 {
        run_parse(lines, i + 1, st)
    } else {
        match pstep(st, lines[i], i + 1) {
            Ok(st2) => run_parse(lines, i + 1, st2),
            Err(e) => Err(e),
        }
    }
}

/// A line without its trailing carriage return, if any.
pub open spec fn strip_cr(l: Seq<char>) -> Seq<char> {
    if l.len() > 0 && l.last() == '\r' {
        l.drop_last()
    } else {
        l
    }
}

/// The lines of a text: split at newlines, with no phantom line after a
/// final newline, and carriage returns before newlines dropped.
pub open spec fn split_lines(t: Seq<char>) -> Seq<Seq<char>> {
    let raw = split_on(t, '\n');
    let cut = if t.len() > 0 && t.last() == '\n' {
        raw.take(raw.len() - 1)
    } else {
        raw
    };
    cut.map_values(|l: Seq<char>| strip_cr(l))
}

/// The parse of a whole text.
pub open spec fn parse_text(t: Seq<char>) -> Result<PStateV, PErrV> {
    run_parse(split_lines(t), 0, init_pstate())
}

/// A chain into the forest: each step a list, labeled as recorded.
pub open spec fn chain_ok(f: Seq<NodeV>, labels: Seq<Seq<char>>, chain: Seq<int>) -> bool {
    &&& labels.len() == chain.len()
    &&& valid_ploc(f, chain)
    &&& forall|k: int|
        0 <= k < chain.len() ==> valid_loc(f, #[trigger] chain.take(k + 1)) && node_at(
            f,
            chain.take(k + 1),
        ) is List && label_of(node_at(f, chain.take(k + 1))) == labels[k]
}

/// Any prefix of a chain is a valid kid-sequence address.
pub proof fn lemma_chain_ok_prefix(f: Seq<NodeV>, labels: Seq<Seq<char>>, chain: Seq<int>, k: int)
    requires
        chain_ok(f, labels, chain),
        0 <= k <= chain.len(),
    ensures
        valid_ploc(f, chain.take(k)),
        chain_ok(f, labels.take(k), chain.take(k)),
{
    if k == 0 {
        assert(chain.take(0) =~= Seq::<int>::empty());
    } else {
        assert(chain.take(k) =~= chain.take((k - 1) + 1));
        assert(valid_loc(f, chain.take(k)) && node_at(f, chain.take(k)) is List);
        crate::tree::lemma_loc_to_ploc(f, chain.take(k));
    }
    assert forall|j: int| 0 <= j < k implies valid_loc(f, #[trigger] chain.take(k).take(j + 1))
        && node_at(f, chain.take(k).take(j + 1)) is List && label_of(
        node_at(f, chain.take(k).take(j + 1)),
    ) == labels.take(k)[j] by {
        assert(chain.take(k).take(j + 1) =~= chain.take(j + 1));
    }
}

/// The parser's invariant between lines.
pub open spec fn pwf(st: PStateV) -> bool {
    &&& chain_ok(st.forest, st.labels, st.chain)
    &&& forall|k: int|
        0 <= k < st.lists_seen.len() ==> chain_ok(
            st.forest,
            (#[trigger] st.lists_seen[k]).labels,
            st.lists_seen[k].loc,
        )
    &&& forall|t: TrackID| #[trigger] crate::tree::tid_count(st.forest, t) <= 1
    &&& forall|t: TrackID|
        #[trigger] crate::tree::tid_count(st.forest, t) > 0 ==> 1 <= t <= st.tracks.len()
    &&& st.tracks.len() + 1 <= i32::MAX
    &&& crate::model::hist_nodup(st.history)
}

/// The start state satisfies the invariant.
pub proof fn lemma_init_pwf()
    ensures
        pwf(init_pstate()),
{
    let st = init_pstate();
    assert(forall|t: TrackID| crate::tree::tid_count(st.forest, t) == 0);
}

/// Every accepted line keeps the parser's invariant.
pub proof fn lemma_pstep_wf(st: PStateV, line: Seq<char>, lino: int)
    requires
        pwf(st),
        line.len() > 0,
        pstep(st, line, lino) is Ok,
    ensures
        pwf(pstep(st, line, lino)->Ok_0),
{
    let st2 = pstep(st, line, lino)->Ok_0;
    if st.mode is InTracks && line == history_line() {
    } else {
        match st.mode {
            PMode::WantMagic => {
            },
            PMode::WantTrackHeader => {
            },
            PMode::InTracks => {
                if line[0] == '\x0B' {
                    lemma_pstep_list_wf(st, line, lino);
                } else {
                    lemma_pstep_track_wf(st, line, lino);
                }
            },
            PMode::InHistory => {
                if crate::util::first_pos(st.history, line, 0) < st.history.len() {
                } else {
                    crate::util::lemma_first_pos(st.history, line, 0);
                    assert forall|a: int, b: int|
                        0 <= a < b < st2.history.len() implies st2.history[a] != st2.history[b] by {
                        if b < st.history.len() {
                            assert(st2.history[a] == st.history[a]);
                            assert(st2.history[b] == st.history[b]);
                        } else {
                            assert(st2.history[b] == line);
                            assert(st2.history[a] == st.history[a]);
                        }
                    }
                }
            },
        }
    }
}

/// A list line keeps the invariant.
pub proof fn lemma_pstep_list_wf(st: PStateV, line: Seq<char>, lino: int)
    requires
        pwf(st),
        line.len() > 0,
        line[0] == '\x0B',
        st.mode is InTracks,
        pstep_list(st, line, lino) is Ok,
    ensures
        pwf(pstep_list(st, line, lino)->Ok_0),
{
    let st2 = pstep_list(st, line, lino)->Ok_0;
    let ind = crate::util::trim_start_idx(line, |c: char| c == '\x0B');
    let name = line.subrange(ind, line.len() as int);
    crate::util::lemma_trim_start_idx(line, |c: char| c == '\x0B');
    assert(ind >= 1) by {
        if ind == 0 {
            assert(!(line[0] == '\x0B'));
        }
    }
    let keep = ind - 1;
    assert(0 <= keep <= st.chain.len());
    let labels0 = st.labels.take(keep);
    let chain0 = st.chain.take(keep);
    let full = join_path(labels0.push(name));
    let si = seen_idx(st.lists_seen, full);
    lemma_seen_idx_bound(st.lists_seen, full);
    if si < st.lists_seen.len() {
        assert(chain_ok(st2.forest, st2.labels, st2.chain));
    } else {
        lemma_chain_ok_prefix(st.forest, st.labels, st.chain, keep);
        let newlist = NodeV::List { label: name, kids: Seq::empty() };
        let sub = kids_at(st.forest, chain0);
        let f2 = set_kids_at(st.forest, chain0, sub.push(newlist));
        let chain1 = chain0.push(sub.len() as int);
        let labels1 = labels0.push(name);
        crate::tree::lemma_set_kids_at_same(st.forest, chain0, sub.push(newlist));
        assert(chain1.drop_last() =~= chain0);
        assert(chain1.last() == sub.len() as int);
        crate::tree::lemma_loc_split(f2, chain1);
        assert(valid_loc(f2, chain1));
        assert(node_at(f2, chain1) == sub.push(newlist)[sub.len() as int]);
        assert(node_at(f2, chain1) == newlist);
        crate::tree::lemma_loc_to_ploc(f2, chain1);
        // Prefixes of the new chain keep their labels.
        assert forall|k: int|
            0 <= k < chain1.len() implies valid_loc(f2, #[trigger] chain1.take(k + 1)) && node_at(
            f2,
            chain1.take(k + 1),
        ) is List && label_of(node_at(f2, chain1.take(k + 1))) == labels1[k] by {
            if k < keep {
                assert(chain1.take(k + 1) =~= st.chain.take(k + 1));
                crate::tree::lemma_append_preserves(
                    st.forest,
                    chain0,
                    newlist,
                    st.chain.take(k + 1),
                );
                assert(labels1[k] == st.labels[k]);
            } else {
                assert(chain1.take(k + 1) =~= chain1);
            }
        }
        assert(chain_ok(f2, labels1, chain1));
        // Every seen chain survives the append.
        assert forall|k: int|
            0 <= k < st2.lists_seen.len() implies chain_ok(
            f2,
            (#[trigger] st2.lists_seen[k]).labels,
            st2.lists_seen[k].loc,
        ) by {
            if k < st.lists_seen.len() {
                let e = st.lists_seen[k];
                assert(chain_ok(st.forest, e.labels, e.loc));
                assert forall|j: int|
                    0 <= j < e.loc.len() implies valid_loc(f2, #[trigger] e.loc.take(j + 1))
                    && node_at(f2, e.loc.take(j + 1)) is List && label_of(
                    node_at(f2, e.loc.take(j + 1)),
                ) == e.labels[j] by {
                    crate::tree::lemma_append_preserves(
                        st.forest,
                        chain0,
                        newlist,
                        e.loc.take(j + 1),
                    );
                }
                if e.loc.len() > 0 {
                    let jl = e.loc.len() - 1;
                    assert(valid_loc(f2, e.loc.take(jl + 1)) && node_at(
                        f2,
                        e.loc.take(jl + 1),
                    ) is List);
                    assert(e.loc.take(jl + 1) =~= e.loc);
                    crate::tree::lemma_loc_to_ploc(f2, e.loc);
                } else {
                    assert(valid_ploc(f2, e.loc));
                }
                assert(chain_ok(f2, e.labels, e.loc));
            } else {
                assert(st2.lists_seen[k] == SeenV { path: full, labels: labels1, loc: chain1 });
            }
        }
        // Appending an empty list adds no identifiers.
        assert forall|t: TrackID| #[trigger] crate::tree::tid_count(f2, t) == crate::tree::tid_count(
            st.forest,
            t,
        ) by {
            crate::tree::lemma_tid_count_set_kids_at(st.forest, chain0, sub.push(newlist), t);
            crate::tree::lemma_tid_count_push(sub, newlist, t);
        }
    }
}

/// A track line keeps the invariant.
pub proof fn lemma_pstep_track_wf(st: PStateV, line: Seq<char>, lino: int)
    requires
        pwf(st),
        line.len() > 0,
        st.mode is InTracks,
        pstep_track(st, line, lino) is Ok,
    ensures
        pwf(pstep_track(st, line, lino)->Ok_0),
{
    let st2 = pstep_track(st, line, lino)->Ok_0;
    let ti = crate::chars::idx_of(line, '\t');
    let filename = line.subrange(0, ti);
    let tid = (st.tracks.len() + 1) as TrackID;
    let canon = crate::util::canonical_label(filename);
    let full = join_path(st.labels.push(canon));
    let dup = crate::util::first_pos(st.tracks_seen, full, 0) < st.tracks_seen.len();
    let lab = if dup {
        canon + seq![' ', '('] + dec_chars(tid as nat) + seq![')']
    } else {
        canon
    };
    let newnode = NodeV::Track { label: lab, tid };
    let sub = kids_at(st.forest, st.chain);
    let f2 = set_kids_at(st.forest, st.chain, sub.push(newnode));
    crate::tree::lemma_set_kids_at_same(st.forest, st.chain, sub.push(newnode));
    assert forall|k: int|
        0 <= k < st.chain.len() implies valid_loc(f2, #[trigger] st.chain.take(k + 1)) && node_at(
        f2,
        st.chain.take(k + 1),
    ) is List && label_of(node_at(f2, st.chain.take(k + 1))) == st.labels[k] by {
        crate::tree::lemma_append_preserves(st.forest, st.chain, newnode, st.chain.take(k + 1));
    }
    assert(chain_ok(f2, st2.labels, st2.chain));
    assert forall|k: int|
        0 <= k < st2.lists_seen.len() implies chain_ok(
        f2,
        (#[trigger] st2.lists_seen[k]).labels,
        st2.lists_seen[k].loc,
    ) by {
        let e = st.lists_seen[k];
        assert(chain_ok(st.forest, e.labels, e.loc));
        assert forall|j: int|
            0 <= j < e.loc.len() implies valid_loc(f2, #[trigger] e.loc.take(j + 1)) && node_at(
            f2,
            e.loc.take(j + 1),
        ) is List && label_of(node_at(f2, e.loc.take(j + 1))) == e.labels[j] by {
            crate::tree::lemma_append_preserves(st.forest, st.chain, newnode, e.loc.take(j + 1));
        }
        if e.loc.len() > 0 {
            let jl = e.loc.len() - 1;
            assert(valid_loc(f2, e.loc.take(jl + 1)) && node_at(f2, e.loc.take(jl + 1)) is List);
            assert(e.loc.take(jl + 1) =~= e.loc);
            crate::tree::lemma_loc_to_ploc(f2, e.loc);
        } else {
            assert(valid_ploc(f2, e.loc));
        }
    }
    assert forall|t: TrackID| #[trigger] crate::tree::tid_count(f2, t) == crate::tree::tid_count(
        st.forest,
        t,
    ) + (if t == tid {
        1int
    } else {
        0int
    }) by {
        crate::tree::lemma_tid_count_set_kids_at(st.forest, st.chain, sub.push(newnode), t);
        crate::tree::lemma_tid_count_push(sub, newnode, t);
    }
    assert forall|t: TrackID| #[trigger] crate::tree::tid_count(f2, t) <= 1 by {
        if t == tid {
            crate::tree::lemma_tid_count_nonneg(st.forest, t);
            if crate::tree::tid_count(st.forest, tid) > 0 {
                assert(tid <= st.tracks.len());
            }
        }
    }
    assert forall|t: TrackID| #[trigger] crate::tree::tid_count(f2, t) > 0 implies 1 <= t
        <= st2.tracks.len() by {
        if t != tid {
            assert(crate::tree::tid_count(st.forest, t) > 0);
        }
    }
}

/// The views of a track vector: filename characters and position.
pub open spec fn tracks_views(ts: Seq<Track>) -> Seq<(Seq<char>, u64)> {
    ts.map_values(|t: Track| (t.filename@, t.millis))
}

/// The views of the three parallel seen-list vectors.
pub open spec fn seen_views(
    paths: Seq<String>,
    labelss: Seq<Vec<String>>,
    locs: Seq<Vec<usize>>,
) -> Seq<SeenV> {
    Seq::new(
        paths.len(),
        |i: int|
            SeenV {
                path: paths[i]@,
                labels: views_of(labelss[i]@),
                loc: crate::tree::locv(locs[i]@),
            },
    )
}

/// What a parse produces: the tree, the track records in identifier
/// order — the track with identifier `i` is at index `i - 1` — and the
/// history entries.
#[derive(Debug)]
pub struct Parsed {
    pub forest: Vec<Node>,
    pub tracks: Vec<Track>,
    pub history: Vec<String>,
}

/// The parser's executable state.
struct Pst {
    mode: PMode,
    forest: Vec<Node>,
    labels: Vec<String>,
    chain: Vec<usize>,
    tracks: Vec<Track>,
    history: Vec<String>,
    seen_paths: Vec<String>,
    seen_labels: Vec<Vec<String>>,
    seen_locs: Vec<Vec<usize>>,
    tracks_seen: Vec<String>,
}

impl Pst {
    spec fn pv(self) -> PStateV {
        PStateV {
            mode: self.mode,
            forest: view_forest(self.forest@),
            labels: views_of(self.labels@),
            chain: crate::tree::locv(self.chain@),
            tracks: tracks_views(self.tracks@),
            history: views_of(self.history@),
            lists_seen: seen_views(self.seen_paths@, self.seen_labels@, self.seen_locs@),
            tracks_seen: views_of(self.tracks_seen@),
        }
    }

    spec fn lens_ok(self) -> bool {
        &&& self.seen_paths@.len() == self.seen_labels@.len()
        &&& self.seen_paths@.len() == self.seen_locs@.len()
        &&& self.labels@.len() == self.chain@.len()
    }
}

/// A copy of a string vector.
fn clone_strings(v: &Vec<String>) -> (r: Vec<String>)
    ensures
        r@ == v@,
{
    let mut r: Vec<String> = Vec::new();
    let n: usize = v.len();
    let mut i: usize = 0;
    while i < n
        invariant
            n == v@.len(),
            i <= n,
            r@ == v@.subrange(0, i as int),
        decreases n - i,
    {
        r.push(v[i].clone());
        proof {
            assert(r@ =~= v@.subrange(0, i + 1 as int));
        }
        i = i + 1;
    }
    proof {
        assert(r@ =~= v@);
    }
    r
}

/// The flat prefix of a joined path: the first `k` labels, each followed
/// by a slash.
pub open spec fn pj(ls: Seq<Seq<char>>, k: int) -> Seq<char>
    decreases k,
{
    if k <= 0 {
        Seq::empty()
    } else {
        pj(ls, k - 1) + ls[k - 1] + seq!['/']
    }
}

pub proof fn lemma_pj_left(ls: Seq<Seq<char>>, k: int)
    requires
        1 <= k <= ls.len(),
    ensures
        pj(ls, k) =~= ls[0] + seq!['/'] + pj(ls.drop_first(), k - 1),
    decreases k,
{
    if k == 1 {
        assert(pj(ls, 0) =~= Seq::<char>::empty());
        assert(pj(ls.drop_first(), 0) =~= Seq::<char>::empty());
    } else {
        lemma_pj_left(ls, k - 1);
        assert(ls.drop_first()[k - 2] == ls[k - 1]);
    }
}

/// A join of pushed labels is the flat prefix plus the last label.
pub proof fn lemma_join_push(ls: Seq<Seq<char>>, x: Seq<char>)
    ensures
        join_path(ls.push(x)) =~= pj(ls, ls.len() as int) + x,
    decreases ls.len(),
{
    if ls.len() == 0 {
        assert(ls.push(x).len() == 1);
        assert(ls.push(x)[0] == x);
        assert(pj(ls, 0) =~= Seq::<char>::empty());
    } else {
        lemma_join_push(ls.drop_first(), x);
        assert(ls.push(x).len() >= 2);
        assert(ls.push(x)[0] == ls[0]);
        assert(ls.push(x).drop_first() =~= ls.drop_first().push(x));
        lemma_pj_left(ls, ls.len() as int);
    }
}

/// The slash-joined path of the given labels plus one more.
fn join_path_exec(labels: &Vec<String>, last: &str) -> (s: String)
    ensures
        s@ == join_path(views_of(labels@).push(last@)),
{
    let ghost ls = views_of(labels@);
    let mut s = String::new();
    let n: usize = labels.len();
    let mut i: usize = 0;
    while i < n
        invariant
            n == labels@.len(),
            i <= n,
            ls == views_of(labels@),
            s@ == pj(ls, i as int),
        decreases n - i,
    {
        s.append(labels[i].as_str());
        s.append("/");
        proof {
            reveal_strlit("/");
            assert("/"@ =~= seq!['/']);
            assert(s@ =~= pj(ls, i + 1));
        }
        i = i + 1;
    }
    s.append(last);
    proof {
        lemma_join_push(ls, last@);
    }
    s
}

/// Reads the position at `v[from..]`, in milliseconds.
pub fn parse_position(v: &Vec<char>, from: usize) -> (ms: u64)
    requires
        from <= v@.len(),
    ensures
        ms == position_val(v@.subrange(from as int, v@.len() as int)),
{
    let s = crate::chars::subvec(v, from, v.len());
    let ghost sv = v@.subrange(from as int, v@.len() as int);
    let n: usize = s.len();
    if n == 0 {
        return 0;
    }
    // Find the dot.
    let mut di: usize = 0;
    while di < n && s[di] != '.'
        invariant
            di <= n == s@.len(),
            forall|j: int| 0 <= j < di ==> s@[j] != '.',
        decreases n - di,
    {
        di = di + 1;
    }
    proof {
        crate::chars::lemma_idx_of_is(sv, '.', di as int);
    }
    if di == 0 && n == 1 {
        // A lone dot carries no digits.
        return 0;
    }
    // Check the integer digits.
    let mut i: usize = 0;
    while i < di
        invariant
            i <= di <= n == s@.len(),
            sv == s@,
            from <= v@.len(),
            sv == v@.subrange(from as int, v@.len() as int),
            crate::chars::idx_of(sv, '.') == di as int,
            forall|j: int| 0 <= j < i ==> is_digit(s@[j]),
        decreases di - i,
    {
        let c = s[i];
        if !('0' <= c && c <= '9') {
            proof {
                assert(sv.subrange(0, di as int)[i as int] == sv[i as int]);
                assert(!all_digits(sv.subrange(0, di as int)));
                assert(!all_digits(sv));
            }
            return 0;
        }
        i = i + 1;
    }
    // Check the fraction digits.
    if di < n {
        let mut k: usize = di + 1;
        while k < n
            invariant
                di + 1 <= k <= n == s@.len(),
                sv == s@,
                from <= v@.len(),
                sv == v@.subrange(from as int, v@.len() as int),
                crate::chars::idx_of(sv, '.') == di as int,
                forall|j: int| di + 1 <= j < k ==> is_digit(s@[j]),
            decreases n - k,
        {
            let c = s[k];
            if !('0' <= c && c <= '9') {
                proof {
                    assert(sv.subrange(di + 1 as int, n as int)[k - di - 1] == sv[k as int]);
                    assert(!all_digits(sv.subrange(di + 1 as int, n as int)));
                }
                return 0;
            }
            k = k + 1;
        }
    }
    proof {
        if di < n {
            assert(forall|j: int|
                0 <= j < di ==> sv.subrange(0, di as int)[j] == sv[j]);
            assert(all_digits(sv.subrange(0, di as int)));
            assert(forall|j: int|
                0 <= j < n - di - 1 ==> #[trigger] sv.subrange(di + 1 as int, n as int)[j] == sv[j
                    + di + 1]);
            assert(all_digits(sv.subrange(di + 1 as int, n as int)));
            assert(n > 1);
            assert(valid_position(sv));
        } else {
            assert(all_digits(sv));
            assert(valid_position(sv));
        }
    }
    // The integer part, saturated.
    let ip: u64 = crate::chars::parse_digits_sat(&s, 0, di);
    let ghost ipv = dec_val(sv.subrange(0, di as int));
    proof {
        crate::chars::lemma_dec_val_nonneg(sv.subrange(0, di as int));
        if di == n as usize {
            assert(sv.subrange(0, di as int) =~= sv);
        }
    }
    // The first three fraction digits, in milliseconds.
    let mut frm: u64 = 0;
    if di < n {
        if n - di > 1 {
            frm = frm + 100 * ((s[di + 1] as u64) - 48);
        }
        if n - di > 2 {
            frm = frm + 10 * ((s[di + 2] as u64) - 48);
        }
        if n - di > 3 {
            frm = frm + ((s[di + 3] as u64) - 48);
        }
        proof {
            let fr = sv.subrange(di + 1 as int, n as int);
            assert(forall|j: int| 0 <= j < fr.len() ==> #[trigger] fr[j] == sv[j + di + 1]);
            assert(frm == fr_ms(fr));
            assert(0 <= fr_ms(fr) <= 999);
        }
    }
    let ghost goal = position_val(sv);
    let r: u64 = match ip.checked_mul(1000) {
        Some(x) => match x.checked_add(frm) {
            Some(y) => y,
            None => u64::MAX,
        },
        None => u64::MAX,
    };
    proof {
        let total = if di < n {
            ipv * 1000 + fr_ms(sv.subrange(di + 1 as int, n as int))
        } else {
            ipv * 1000
        };
        if ipv > u64::MAX {
            assert(ip == u64::MAX);
            assert(ipv * 1000 >= ipv) by (nonlinear_arith)
                requires
                    ipv >= 0,
            ;
            assert(total > u64::MAX);
        } else {
            assert(ip == ipv);
        }
        assert(r == clamp_u64(total));
        assert(goal == clamp_u64(total));
    }
    r
}

/// Splitting never yields an empty line list.
pub proof fn lemma_split_on_nonempty(s: Seq<char>, c: char)
    ensures
        split_on(s, c).len() >= 1,
{
    let i = crate::chars::idx_of(s, c);
    if 0 <= i && i < s.len() {
    } else {
    }
}

/// The lines of a text, as character vectors.
pub fn split_text_lines(v: &Vec<char>) -> (r: Vec<Vec<char>>)
    ensures
        crate::chars::seq_views(r@) == split_lines(v@),
{
    let mut parts = crate::chars::split_chars(v, '\n');
    let ghost raw = split_on(v@, '\n');
    if v.len() > 0 && v[v.len() - 1] == '\n' {
        proof {
            lemma_split_on_nonempty(v@, '\n');
            assert(crate::chars::seq_views(parts@).len() == raw.len());
        }
        let popped = parts.pop();
        proof {
            assert(crate::chars::seq_views(parts@) =~= raw.take(raw.len() - 1));
        }
    }
    let ghost cutv = crate::chars::seq_views(parts@);
    proof {
        assert(cutv =~= (if v@.len() > 0 && v@.last() == '\n' {
            raw.take(raw.len() - 1)
        } else {
            raw
        }));
    }
    let mut out: Vec<Vec<char>> = Vec::new();
    let m: usize = parts.len();
    let mut i: usize = 0;
    while i < m
        invariant
            m == parts@.len(),
            i <= m,
            cutv == crate::chars::seq_views(parts@),
            out@.len() == i,
            forall|j: int| 0 <= j < i ==> #[trigger] out@[j]@ == strip_cr(cutv[j]),
        decreases m - i,
    {
        let p = &parts[i];
        if p.len() > 0 && p[p.len() - 1] == '\r' {
            let stripped = crate::chars::subvec(p, 0, p.len() - 1);
            proof {
                assert(stripped@ =~= p@.drop_last());
            }
            out.push(stripped);
        } else {
            out.push(crate::chars::clone_chars(p));
        }
        i = i + 1;
    }
    proof {
        assert(crate::chars::seq_views(out@) =~= split_lines(v@));
    }
    out
}

/// The exact history-switch line, as characters.
fn history_line_vec() -> (r: Vec<char>)
    ensures
        r@ == history_line(),
{
    let mut r: Vec<char> = Vec::new();
    r.push('\x0C');
    r.push('H');
    r.push('I');
    r.push('S');
    r.push('T');
    r.push('O');
    r.push('R');
    r.push('Y');
    proof {
        assert(r@ =~= history_line());
    }
    r
}

/// The required opening of the first line, as characters.
fn magic_prefix_vec() -> (r: Vec<char>)
    ensures
        r@ == magic_prefix(),
{
    let mut r: Vec<char> = Vec::new();
    r.push('\x0C');
    r.push('T');
    r.push('L');
    r.push('M');
    r.push('\t');
    proof {
        assert(r@ =~= magic_prefix());
    }
    r
}

/// The required opening of the tracks header, as characters.
fn tracks_line_vec() -> (r: Vec<char>)
    ensures
        r@ == tracks_line(),
{
    let mut r: Vec<char> = Vec::new();
    r.push('\x0C');
    r.push('T');
    r.push('R');
    r.push('A');
    r.push('C');
    r.push('K');
    r.push('S');
    proof {
        assert(r@ =~= tracks_line());
    }
    r
}

/// One list line, executably.
fn step_list(st: &mut Pst, line: &Vec<char>, lino: usize) -> (r: Option<ParseError>)
    requires
        line@.len() > 0,
        line@[0] == '\x0B',
        old(st).mode is InTracks,
        pwf(old(st).pv()),
        old(st).lens_ok(),
    ensures
        match r {
            None => pstep_list(old(st).pv(), line@, lino as int) == Ok::<PStateV, PErrV>(
                final(st).pv(),
            ) && pwf(final(st).pv()) && final(st).lens_ok(),
            Some(e) => pstep_list(old(st).pv(), line@, lino as int) == Err::<PStateV, PErrV>(
                PErrV { lino: lino as int, kind: e.kind },
            ) && e.lino == lino,
        },
{
    let ghost stv = old(st).pv();
    let n: usize = line.len();
    let mut ind: usize = 0;
    while ind < n && line[ind] == '\x0B'
        invariant
            ind <= n == line@.len(),
            forall|j: int| 0 <= j < ind ==> line@[j] == '\x0B',
        decreases n - ind,
    {
        ind = ind + 1;
    }
    proof {
        crate::util::lemma_trim_start_idx_is(line@, |c: char| c == '\x0B', ind as int);
        assert(ind >= 1);
    }
    let prev = st.labels.len();
    if ind - 1 > prev {
        return Some(ParseError { lino, kind: ParseErrorKind::BadIndent });
    }
    let keep = ind - 1;
    st.labels.truncate(keep);
    st.chain.truncate(keep);
    let ghost labels0 = stv.labels.take(keep as int);
    let ghost chain0 = stv.chain.take(keep as int);
    proof {
        assert(views_of(st.labels@) =~= labels0);
        assert(crate::tree::locv(st.chain@) =~= chain0);
    }
    let name_chars = crate::chars::subvec(line, ind, n);
    let name_str = string_from_chars(&name_chars);
    let ghost namev = line@.subrange(ind as int, n as int);
    let full = join_path_exec(&st.labels, name_str.as_str());
    proof {
        assert(full@ == join_path(labels0.push(namev)));
    }
    // Look for a list already seen under this path.
    let ghost seenv = stv.lists_seen;
    let m: usize = st.seen_paths.len();
    let mut si: usize = m;
    let mut i: usize = 0;
    while i < m
        invariant
            m == st.seen_paths@.len(),
            i <= m,
            seenv == seen_views(st.seen_paths@, st.seen_labels@, st.seen_locs@),
            seenv.len() == m,
            si == m || (si < i && seenv[si as int].path == full@),
            si == m ==> forall|j: int| 0 <= j < i ==> (#[trigger] seenv[j]).path != full@,
            si < m ==> forall|j: int| 0 <= j < si ==> (#[trigger] seenv[j]).path != full@,
        decreases m - i,
    {
        if si == m {
            let cur = &st.seen_paths[i];
            if *cur == full {
                si = i;
            }
        }
        i = i + 1;
    }
    proof {
        lemma_seen_idx_is(seenv, full@, si as int);
    }
    if si < m {
        st.labels = clone_strings(&st.seen_labels[si]);
        st.chain = crate::tree::clone_usizes(&st.seen_locs[si]);
        proof {
            assert(st.pv() =~= PStateV {
                labels: seenv[si as int].labels,
                chain: seenv[si as int].loc,
                ..stv
            });
            assert(seen_views(st.seen_paths@, st.seen_labels@, st.seen_locs@) =~= seenv);
            lemma_pstep_list_wf(stv, line@, lino as int);
        }
        None
    } else {
        proof {
            lemma_chain_ok_prefix(stv.forest, stv.labels, stv.chain, keep as int);
            assert(st.chain@.skip(0) =~= st.chain@);
        }
        let subl: usize = match crate::tree::kids_ref_at(&st.forest, &st.chain, 0) {
            Some(ks) => {
                proof {
                    crate::tree::lemma_view_forest(ks@);
                }
                ks.len()
            },
            None => {
                proof {
                    assert(false);
                }
                0
            },
        };
        let label_for_stack = name_str.clone();
        let node = Node::List(ListNode { label: name_str, kids: Vec::new() });
        proof {
            assert(view_forest(Seq::<Node>::empty()) =~= Seq::<NodeV>::empty());
            assert(view_node(node) == NodeV::List { label: namev, kids: Seq::empty() });
        }
        crate::tree::push_kid_at(&mut st.forest, &st.chain, 0, node);
        st.labels.push(label_for_stack);
        st.chain.push(subl);
        st.seen_paths.push(full);
        st.seen_labels.push(clone_strings(&st.labels));
        st.seen_locs.push(crate::tree::clone_usizes(&st.chain));
        proof {
            let sub = kids_at(stv.forest, chain0);
            let labels1 = labels0.push(namev);
            let chain1 = chain0.push(sub.len() as int);
            assert(views_of(st.labels@) =~= labels1);
            assert(crate::tree::locv(st.chain@) =~= chain1);
            assert(seen_views(st.seen_paths@, st.seen_labels@, st.seen_locs@) =~= seenv.push(
                SeenV { path: full@, labels: labels1, loc: chain1 },
            ));
            assert(st.pv() =~= pstep_list(stv, line@, lino as int)->Ok_0);
            lemma_pstep_list_wf(stv, line@, lino as int);
        }
        None
    }
}

/// One track line, executably.
fn step_track(st: &mut Pst, line: &Vec<char>, lino: usize) -> (r: Option<ParseError>)
    requires
        line@.len() > 0,
        old(st).mode is InTracks,
        pwf(old(st).pv()),
        old(st).lens_ok(),
    ensures
        match r {
            None => pstep_track(old(st).pv(), line@, lino as int) == Ok::<PStateV, PErrV>(
                final(st).pv(),
            ) && pwf(final(st).pv()) && final(st).lens_ok(),
            Some(e) => pstep_track(old(st).pv(), line@, lino as int) == Err::<PStateV, PErrV>(
                PErrV { lino: lino as int, kind: e.kind },
            ) && e.lino == lino,
        },
{
    let ghost stv = old(st).pv();
    let n: usize = line.len();
    let mut ti: usize = 0;
    while ti < n && line[ti] != '\t'
        invariant
            ti <= n == line@.len(),
            forall|j: int| 0 <= j < ti ==> line@[j] != '\t',
        decreases n - ti,
    {
        ti = ti + 1;
    }
    proof {
        crate::chars::lemma_idx_of_is(line@, '\t', ti as int);
    }
    if ti == n {
        return Some(ParseError { lino, kind: ParseErrorKind::BadTrackLine });
    }
    if st.tracks.len() >= (i32::MAX as usize) - 1 {
        return Some(ParseError { lino, kind: ParseErrorKind::TooManyTracks });
    }
    let fname_chars = crate::chars::subvec(line, 0, ti);
    let filename = string_from_chars(&fname_chars);
    let ms = parse_position(line, ti + 1);
    let tid: TrackID = (st.tracks.len() + 1) as TrackID;
    let canon = crate::util::canonicalize(filename.as_str());
    let ghost canonv = canon@;
    let full = join_path_exec(&st.labels, canon.as_str());
    let ghost fullv = full@;
    // Has this path been produced before?
    let m: usize = st.tracks_seen.len();
    let mut dpos: usize = m;
    let mut i: usize = 0;
    while i < m
        invariant
            m == st.tracks_seen@.len(),
            i <= m,
            views_of(st.tracks_seen@).len() == m,
            fullv == full@,
            dpos == m || (dpos < i && views_of(st.tracks_seen@)[dpos as int] == fullv),
            dpos == m ==> forall|j: int|
                0 <= j < i ==> #[trigger] views_of(st.tracks_seen@)[j] != fullv,
            dpos < m ==> forall|j: int|
                0 <= j < dpos ==> #[trigger] views_of(st.tracks_seen@)[j] != fullv,
        decreases m - i,
    {
        if dpos == m {
            let cur = &st.tracks_seen[i];
            if *cur == full {
                dpos = i;
            }
        }
        i = i + 1;
    }
    proof {
        crate::util::lemma_first_pos_is(views_of(st.tracks_seen@), fullv, 0, dpos as int);
    }
    let dup = dpos < m;
    let label: String = if dup {
        let mut l = canon;
        l.append(" (");
        let ds = crate::chars::u64_to_string(tid as u64);
        l.append(ds.as_str());
        l.append(")");
        proof {
            reveal_strlit(" (");
            reveal_strlit(")");
            assert(" ("@ =~= seq![' ', '(']);
            assert(")"@ =~= seq![')']);
        }
        l
    } else {
        canon
    };
    let ghost labv = label@;
    proof {
        assert(labv == (if dup {
            canonv + seq![' ', '('] + dec_chars(tid as nat) + seq![')']
        } else {
            canonv
        }));
    }
    let node = Node::Track(TrackNode { label, tid });
    proof {
        assert(view_node(node) == NodeV::Track { label: labv, tid });
        assert(st.chain@.skip(0) =~= st.chain@);
        assert(valid_ploc(view_forest(st.forest@), crate::tree::locv(st.chain@)));
    }
    crate::tree::push_kid_at(&mut st.forest, &st.chain, 0, node);
    st.tracks.push(Track::new(filename, ms));
    if !dup {
        st.tracks_seen.push(full);
    }
    proof {
        assert(tracks_views(st.tracks@) =~= stv.tracks.push(
            (line@.subrange(0, ti as int), ms),
        ));
        if !dup {
            assert(views_of(st.tracks_seen@) =~= stv.tracks_seen.push(fullv));
        }
        assert(seen_views(st.seen_paths@, st.seen_labels@, st.seen_locs@) =~= stv.lists_seen);
        assert(st.pv() =~= pstep_track(stv, line@, lino as int)->Ok_0);
        lemma_pstep_track_wf(stv, line@, lino as int);
    }
    None
}

/// One non-empty line, executably.
fn step_line(st: &mut Pst, line: &Vec<char>, lino: usize) -> (r: Option<ParseError>)
    requires
        line@.len() > 0,
        pwf(old(st).pv()),
        old(st).lens_ok(),
    ensures
        match r {
            None => pstep(old(st).pv(), line@, lino as int) == Ok::<PStateV, PErrV>(final(st).pv())
                && pwf(final(st).pv()) && final(st).lens_ok(),
            Some(e) => pstep(old(st).pv(), line@, lino as int) == Err::<PStateV, PErrV>(
                PErrV { lino: lino as int, kind: e.kind },
            ) && e.lino == lino,
        },
{
    let ghost stv = old(st).pv();
    let is_in_tracks = match st.mode {
        PMode::InTracks => true,
        _ => false,
    };
    if is_in_tracks {
        let hl = history_line_vec();
        if crate::chars::chars_eq(line, &hl) {
            st.mode = PMode::InHistory;
            proof {
                assert(st.pv() =~= PStateV { mode: PMode::InHistory, ..stv });
            }
            return None;
        }
    }
    match st.mode {
        PMode::WantMagic => {
            let mp = magic_prefix_vec();
            if crate::chars::starts_with_chars(line, &mp) {
                st.mode = PMode::WantTrackHeader;
                proof {
                    assert(st.pv() =~= PStateV { mode: PMode::WantTrackHeader, ..stv });
                }
                None
            } else {
                Some(ParseError { lino, kind: ParseErrorKind::NotTlm })
            }
        },
        PMode::WantTrackHeader => {
            let tp = tracks_line_vec();
            if crate::chars::starts_with_chars(line, &tp) {
                st.mode = PMode::InTracks;
                proof {
                    assert(st.pv() =~= PStateV { mode: PMode::InTracks, ..stv });
                }
                None
            } else {
                Some(ParseError { lino, kind: ParseErrorKind::MissingTracks })
            }
        },
        PMode::InTracks => {
            if line[0] == '\x0B' {
                step_list(st, line, lino)
            } else {
                step_track(st, line, lino)
            }
        },
        PMode::InHistory => {
            let m: usize = st.history.len();
            let mut dpos: usize = m;
            let mut i: usize = 0;
            while i < m
                invariant
                    m == st.history@.len(),
                    i <= m,
                    views_of(st.history@).len() == m,
                    dpos == m || (dpos < i && views_of(st.history@)[dpos as int] == line@),
                    dpos == m ==> forall|j: int|
                        0 <= j < i ==> #[trigger] views_of(st.history@)[j] != line@,
                    dpos < m ==> forall|j: int|
                        0 <= j < dpos ==> #[trigger] views_of(st.history@)[j] != line@,
                decreases m - i,
            {
                if dpos == m {
                    let cur = &st.history[i];
                    let lv = string_from_chars(line);
                    if *cur == lv {
                        dpos = i;
                    }
                }
                i = i + 1;
            }
            proof {
                crate::util::lemma_first_pos_is(views_of(st.history@), line@, 0, dpos as int);
            }
            if dpos == m {
                let entry = string_from_chars(line);
                st.history.push(entry);
                proof {
                    assert(views_of(st.history@) =~= stv.history.push(line@));
                    assert(st.pv() =~= PStateV { history: stv.history.push(line@), ..stv });
                    lemma_pstep_wf(stv, line@, lino as int);
                }
            } else {
                proof {
                    assert(st.pv() =~= stv);
                }
            }
            None
        },
    }
}

/// Parses a whole document text into a tree, the track records in
/// identifier order, and the history entries.
pub fn parse_doc_text(text: &str) -> (r: Result<Parsed, ParseError>)
    ensures
        match r {
            Ok(p) => parse_text(text@) is Ok && ({
                let st = parse_text(text@)->Ok_0;
                &&& view_forest(p.forest@) == st.forest
                &&& tracks_views(p.tracks@) == st.tracks
                &&& views_of(p.history@) == st.history
                &&& pwf(st)
            }),
            Err(e) => parse_text(text@) is Err && parse_text(text@)->Err_0.lino == e.lino as int
                && parse_text(text@)->Err_0.kind == e.kind,
        },
{
    let tv = chars_of(text);
    let lines = split_text_lines(&tv);
    let ghost linesv = crate::chars::seq_views(lines@);
    proof {
        lemma_init_pwf();
    }
    let mut st = Pst {
        mode: PMode::WantMagic,
        forest: Vec::new(),
        labels: Vec::new(),
        chain: Vec::new(),
        tracks: Vec::new(),
        history: Vec::new(),
        seen_paths: Vec::new(),
        seen_labels: Vec::new(),
        seen_locs: Vec::new(),
        tracks_seen: Vec::new(),
    };
    proof {
        assert(view_forest(Seq::<Node>::empty()) =~= Seq::<NodeV>::empty());
        assert(st.pv() =~= init_pstate());
    }
    let n: usize = lines.len();
    let mut i: usize = 0;
    while i < n
        invariant
            n == lines@.len(),
            i <= n,
            linesv == crate::chars::seq_views(lines@),
            linesv == split_lines(text@),
            pwf(st.pv()),
            st.lens_ok(),
            run_parse(linesv, i as int, st.pv()) == run_parse(linesv, 0, init_pstate()),
        decreases n - i,
    {
        let ghost pre = st.pv();
        let line = &lines[i];
        proof {
            assert(linesv[i as int] == line@);
        }
        if line.len() > 0 {
            let e = step_line(&mut st, line, i + 1);
            match e {
                Some(err) => {
                    proof {
                        assert(run_parse(linesv, i as int, pre) == Err::<PStateV, PErrV>(
                            PErrV { lino: err.lino as int, kind: err.kind },
                        ));
                    }
                    return Err(err);
                },
                None => {
                    proof {
                        assert(run_parse(linesv, i as int, pre) == run_parse(
                            linesv,
                            i + 1,
                            st.pv(),
                        ));
                    }
                },
            }
        } else {
            proof {
                assert(run_parse(linesv, i as int, st.pv()) == run_parse(
                    linesv,
                    i + 1,
                    st.pv(),
                ));
            }
        }
        i = i + 1;
    }
    proof {
        assert(run_parse(linesv, n as int, st.pv()) == Ok::<PStateV, PErrV>(st.pv()));
        assert(parse_text(text@) == Ok::<PStateV, PErrV>(st.pv()));
    }
    Ok(Parsed { forest: st.forest, tracks: st.tracks, history: st.history })
}

pub uninterp spec fn gunzip_text(bytes: Seq<u8>) -> Option<Seq<char>>;

/// Relies on flate2's `write::GzEncoder` with best compression: the
/// output is a gzip stream — it opens with the magic bytes `1f 8b` — and
/// decompressing it yields back exactly the text that was written.
/// Writing into a `Vec` cannot fail, so the unwraps cannot panic.
#[verifier::external_body]
pub fn gzip_compress(text: &str) -> (r: Vec<u8>)
    ensures
        gunzip_text(r@) == Some(text@),
        r@.len() >= 2,
        r@.len() >= 2 ==> r@[0] == 0x1f && r@[1] == 0x8b,
{
    let mut enc = flate2::write::GzEncoder::new(Vec::new(), flate2::Compression::best());
    enc.write_all(text.as_bytes()).unwrap();
    enc.finish().unwrap()
}

/// Relies on flate2's `read::GzDecoder` and `Read::read_to_string`: the
/// result is the text whose gzip stream the bytes are, or nothing when
/// the bytes are not a gzip stream of UTF-8 text.
#[verifier::external_body]
pub fn gzip_decompress(bytes: &Vec<u8>) -> (r: Option<String>)
    ensures
        match r {
            Some(s) => gunzip_text(bytes@) == Some(s@),
            None => gunzip_text(bytes@) is None,
        },
{
    let mut dec = flate2::read::GzDecoder::new(bytes.as_slice());
    let mut text = String::new();
    match dec.read_to_string(&mut text) {
        Ok(_) => Some(text),
        Err(_) => None,
    }
}

pub uninterp spec fn utf8_text(bytes: Seq<u8>) -> Option<Seq<char>>;

/// The text a document's bytes hold: gunzipped when they open with the
/// gzip magic bytes, read as UTF-8 otherwise.
pub open spec fn decode_doc(bytes: Seq<u8>) -> Option<Seq<char>> {
    if bytes.len() >= 2 && bytes[0] == 0x1f && bytes[1] == 0x8b {
        gunzip_text(bytes)
    } else {
        utf8_text(bytes)
    }
}

/// Relies on `String::from_utf8`: the result is the text the bytes
/// encode, or nothing when they are not valid UTF-8.
#[verifier::external_body]
pub fn utf8_decode(bytes: &Vec<u8>) -> (r: Option<String>)
    ensures
        match r {
            Some(s) => utf8_text(bytes@) == Some(s@),
            None => utf8_text(bytes@) is None,
        },
{
    match String::from_utf8(bytes.clone()) {
        Ok(s) => Some(s),
        Err(_) => None,
    }
}

} // verus!
