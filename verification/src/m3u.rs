//! The M3U playlist format: a `#EXTM3U` header, then for each track one
//! `#EXTINF:` line — seconds, a comma, a title — followed by one filename
//! line.  Whether a listed file exists on disk is the caller's check.

use vstd::prelude::*;
use vstd::string::*;
use crate::chars::{chars_of, idx_of, lemma_idx_of_is, string_from_chars, subvec};
use crate::codec::{has_prefix, position_val, split_lines, split_text_lines, tracks_views};
use crate::model::Track;
use crate::util::{lemma_trim_end_idx_is, lemma_trim_start_idx_is, trim_end_idx, trim_start_idx};

verus! {

/// Why a playlist was rejected.
#[derive(Clone, Copy, Debug, PartialEq, Eq, Structural)]
pub enum M3uErrorKind {
    /// The first line is not the `#EXTM3U` header.
    MissingHeader,
    /// A track information line was expected.
    ExpectedInfo,
    /// A track information line has no comma.
    BadInfo,
    /// A filename was expected, not another information line.
    UnexpectedInfo,
}

/// A playlist parse failure: the 1-based line and why.
#[derive(Clone, Copy, Debug, PartialEq, Eq, Structural)]
pub struct M3uError {
    pub lino: usize,
    pub kind: M3uErrorKind,
}

/// The playlist parser's mode.
pub enum MMode {
    WantM3u,
    WantInfo,
    WantFile,
}

/// The playlist parser's state between lines.
#[verifier::ext_equal]
pub struct MStateV {
    pub mode: MMode,
    pub millis: u64,
    pub tracks: Seq<(Seq<char>, u64)>,
}

/// The mathematical form of a playlist parse failure.
pub struct MErrV {
    pub lino: int,
    pub kind: M3uErrorKind,
}

/// Whether a character counts as blank when lines are trimmed; the ASCII
/// blanks only.
pub open spec fn is_ws(c: char) -> bool {
    c == ' ' || c == '\t' || c == '\r' || c == '\n' || c == '\x0b' || c == '\x0c'
}

/// A line with ASCII blanks trimmed from both ends.
pub open spec fn trimmed(s: Seq<char>) -> Seq<char> {
    let t1 = s.subrange(0, trim_end_idx(s, |c: char| is_ws(c)));
    t1.subrange(trim_start_idx(t1, |c: char| is_ws(c)), t1.len() as int)
}

/// The playlist header line.
pub open spec fn extm3u() -> Seq<char> {
    seq!['#', 'E', 'X', 'T', 'M', '3', 'U']
}

/// What a track information line starts with.
pub open spec fn extinf() -> Seq<char> {
    seq!['#', 'E', 'X', 'T', 'I', 'N', 'F', ':']
}

/// `s` with every repetition of the leading pattern `p` removed.
pub open spec fn strip_reps(s: Seq<char>, p: Seq<char>) -> Seq<char>
    recommends
        p.len() > 0,
    decreases s.len(),
{
    if p.len() > 0 && has_prefix(s, p) && s.len() >= p.len() {
        strip_reps(s.skip(p.len() as int), p)
    } else {
        s
    }
}

/// The seconds field of an information line, in milliseconds; negative
/// durations and anything unreadable count as zero.
pub open spec fn m3u_millis(s: Seq<char>) -> u64 {
    if s.len() > 0 && s[0] == '-' {
        0
    } else if s.len() > 0 && s[0] == '+' {
        position_val(s.drop_first())
    } else {
        position_val(s)
    }
}

/// One non-blank, trimmed playlist line.
pub open spec fn mstep(st: MStateV, line: Seq<char>, lino: int) -> Result<MStateV, MErrV>
    recommends
        line.len() > 0,
{
    match st.mode {
        MMode::WantM3u => if line == extm3u() {
            Ok(MStateV { mode: MMode::WantInfo, ..st })
        } else {
            Err(MErrV { lino, kind: M3uErrorKind::MissingHeader })
        },
        MMode::WantInfo => if has_prefix(line, extinf()) {
            let rest0 = strip_reps(line, extinf());
            let rest = rest0.subrange(
                trim_start_idx(rest0, |c: char| c == ':'),
                rest0.len() as int,
            );
            let ci = idx_of(rest, ',');
            if ci < rest.len() {
                Ok(
                    MStateV {
                        mode: MMode::WantFile,
                        millis: m3u_millis(rest.subrange(0, ci)),
                        ..st
                    },
                )
            } else {
                Err(MErrV { lino, kind: M3uErrorKind::BadInfo })
            }
        } else {
            Err(MErrV { lino, kind: M3uErrorKind::ExpectedInfo })
        },
        MMode::WantFile => if has_prefix(line, extinf()) {
            Err(MErrV { lino, kind: M3uErrorKind::UnexpectedInfo })
        } else {
            Ok(
                MStateV {
                    mode: MMode::WantInfo,
                    millis: 0,
                    tracks: st.tracks.push((line, st.millis)),
                },
            )
        },
    }
}

/// The playlist parser's start state.
pub open spec fn init_mstate() -> MStateV {
    MStateV { mode: MMode::WantM3u, millis: 0, tracks: Seq::empty() }
}

/// Runs the playlist parser over `lines[i..]`: each line is trimmed, and
/// blank lines are skipped.
pub open spec fn mrun(lines: Seq<Seq<char>>, i: int, st: MStateV) -> Result<MStateV, MErrV>
    decreases lines.len() - i,
{
    if i < 0 || i >= lines.len() {
        Ok(st)
    } else if trimmed(lines[i]).len() == 0 {
        mrun(lines, i + 1, st)
    } else {
        match mstep(st, trimmed(lines[i]), i + 1) {
            Ok(st2) => mrun(lines, i + 1, st2),
            Err(e) => Err(e),
        }
    }
}

/// The parse of a whole playlist text.
pub open spec fn parse_m3u_text(t: Seq<char>) -> Result<MStateV, MErrV> {
    mrun(split_lines(t), 0, init_mstate())
}

/// The trimmed form of a line, executably.
fn trim_line(line: &Vec<char>) -> (r: Vec<char>)
    ensures
        r@ == trimmed(line@),
{
    let n: usize = line.len();
    let mut e: usize = n;
    while e > 0 && (line[e - 1] == ' ' || line[e - 1] == '\t' || line[e - 1] == '\r' || line[e - 1]
        == '\n' || line[e - 1] == '\x0b' || line[e - 1] == '\x0c')
        invariant
            e <= n == line@.len(),
            forall|j: int| e <= j < n ==> is_ws(line@[j]),
        decreases e,
    {
        e = e - 1;
    }
    proof {
        lemma_trim_end_idx_is(line@, |c: char| is_ws(c), e as int);
    }
    let mut a: usize = 0;
    while a < e && (line[a] == ' ' || line[a] == '\t' || line[a] == '\r' || line[a] == '\n'
        || line[a] == '\x0b' || line[a] == '\x0c')
        invariant
            a <= e <= line@.len(),
            forall|j: int| e <= j < line@.len() ==> is_ws(line@[j]),
            forall|j: int| 0 <= j < a ==> is_ws(line@[j]),
        decreases e - a,
    {
        a = a + 1;
    }
    let r = subvec(line, a, e);
    proof {
        let t1 = line@.subrange(0, e as int);
        assert(forall|j: int| 0 <= j < e ==> t1[j] == line@[j]);
        lemma_trim_start_idx_is(t1, |c: char| is_ws(c), a as int);
        assert(r@ =~= trimmed(line@));
    }
    r
}

/// The header line, as characters.
fn extm3u_vec() -> (r: Vec<char>)
    ensures
        r@ == extm3u(),
{
    let mut r: Vec<char> = Vec::new();
    r.push('#');
    r.push('E');
    r.push('X');
    r.push('T');
    r.push('M');
    r.push('3');
    r.push('U');
    proof {
        assert(r@ =~= extm3u());
    }
    r
}

/// The information-line opening, as characters.
fn extinf_vec() -> (r: Vec<char>)
    ensures
        r@ == extinf(),
{
    let mut r: Vec<char> = Vec::new();
    r.push('#');
    r.push('E');
    r.push('X');
    r.push('T');
    r.push('I');
    r.push('N');
    r.push('F');
    r.push(':');
    proof {
        assert(r@ =~= extinf());
    }
    r
}

/// Parses a playlist text into its tracks: filename and duration, in
/// milliseconds, in playlist order.
pub fn parse_m3u(text: &str) -> (r: Result<Vec<Track>, M3uError>)
    ensures
        match r {
            Ok(v) => parse_m3u_text(text@) is Ok && tracks_views(v@) == parse_m3u_text(
                text@,
            )->Ok_0.tracks,
            Err(e) => parse_m3u_text(text@) is Err && parse_m3u_text(text@)->Err_0.lino
                == e.lino as int && parse_m3u_text(text@)->Err_0.kind == e.kind,
        },
{
    let tv = chars_of(text);
    let lines = split_text_lines(&tv);
    let ghost linesv = crate::chars::seq_views(lines@);
    let mut tracks: Vec<Track> = Vec::new();
    let mut millis: u64 = 0;
    let mut mode: MMode = MMode::WantM3u;
    let ghost mut stv = init_mstate();
    proof {
        assert(stv =~= MStateV { mode: mode, millis: millis, tracks: tracks_views(tracks@) });
    }
    let n: usize = lines.len();
    let mut i: usize = 0;
    while i < n
        invariant
            n == lines@.len(),
            i <= n,
            linesv == crate::chars::seq_views(lines@),
            linesv == split_lines(text@),
            stv == (MStateV { mode: mode, millis: millis, tracks: tracks_views(tracks@) }),
            mrun(linesv, i as int, stv) == mrun(linesv, 0, init_mstate()),
        decreases n - i,
    {
        let ghost pre = stv;
        let line = trim_line(&lines[i]);
        proof {
            assert(linesv[i as int] == lines@[i as int]@);
            assert(line@ == trimmed(linesv[i as int]));
        }
        if line.len() > 0 {
            let lino = i + 1;
            match mode {
                MMode::WantM3u => {
                    let hdr = extm3u_vec();
                    if crate::chars::chars_eq(&line, &hdr) {
                        mode = MMode::WantInfo;
                        proof {
                            stv = MStateV { mode: MMode::WantInfo, ..pre };
                        }
                    } else {
                        proof {
                            assert(mrun(linesv, i as int, pre) == Err::<MStateV, MErrV>(
                                MErrV { lino: lino as int, kind: M3uErrorKind::MissingHeader },
                            ));
                        }
                        return Err(M3uError { lino, kind: M3uErrorKind::MissingHeader });
                    }
                },
                MMode::WantInfo => {
                    let inf = extinf_vec();
                    if !crate::chars::starts_with_chars(&line, &inf) {
                        proof {
                            assert(mrun(linesv, i as int, pre) == Err::<MStateV, MErrV>(
                                MErrV { lino: lino as int, kind: M3uErrorKind::ExpectedInfo },
                            ));
                        }
                        return Err(M3uError { lino, kind: M3uErrorKind::ExpectedInfo });
                    }
                    // Drop repeated openings, then stray colons.
                    let mut cur = line;
                    while cur.len() >= 8 && crate::chars::starts_with_chars(&cur, &inf)
                        invariant
                            inf@ == extinf(),
                            strip_reps(cur@, extinf()) == strip_reps(
                                trimmed(linesv[i as int]),
                                extinf(),
                            ),
                        decreases cur@.len(),
                    {
                        let next = subvec(&cur, 8, cur.len());
                        proof {
                            assert(next@ =~= cur@.skip(8));
                        }
                        cur = next;
                    }
                    let ghost rest0 = strip_reps(trimmed(linesv[i as int]), extinf());
                    proof {
                        if cur@.len() < 8 && has_prefix(cur@, extinf()) {
                            assert(cur@.len() >= extinf().len());
                            assert(false);
                        }
                        assert(cur@ == rest0);
                    }
                    let m: usize = cur.len();
                    let mut a: usize = 0;
                    while a < m && cur[a] == ':'
                        invariant
                            a <= m == cur@.len(),
                            forall|j: int| 0 <= j < a ==> cur@[j] == ':',
                        decreases m - a,
                    {
                        a = a + 1;
                    }
                    proof {
                        lemma_trim_start_idx_is(cur@, |c: char| c == ':', a as int);
                    }
                    let rest = subvec(&cur, a, m);
                    let ghost restv = rest0.subrange(
                        trim_start_idx(rest0, |c: char| c == ':'),
                        rest0.len() as int,
                    );
                    proof {
                        assert(rest@ =~= restv);
                    }
                    // Find the comma.
                    let k: usize = rest.len();
                    let mut ci: usize = 0;
                    while ci < k && rest[ci] != ','
                        invariant
                            ci <= k == rest@.len(),
                            forall|j: int| 0 <= j < ci ==> rest@[j] != ',',
                        decreases k - ci,
                    {
                        ci = ci + 1;
                    }
                    proof {
                        lemma_idx_of_is(rest@, ',', ci as int);
                    }
                    if ci == k {
                        proof {
                            assert(mrun(linesv, i as int, pre) == Err::<MStateV, MErrV>(
                                MErrV { lino: lino as int, kind: M3uErrorKind::BadInfo },
                            ));
                        }
                        return Err(M3uError { lino, kind: M3uErrorKind::BadInfo });
                    }
                    let secs_field = subvec(&rest, 0, ci);
                    let ms: u64 = if secs_field.len() > 0 && secs_field[0] == '-' {
                        0
                    } else if secs_field.len() > 0 && secs_field[0] == '+' {
                        let p = crate::codec::parse_position(&secs_field, 1);
                        p
                    } else {
                        crate::codec::parse_position(&secs_field, 0)
                    };
                    proof {
                        assert(secs_field@ == restv.subrange(0, ci as int));
                        if secs_field@.len() > 0 && secs_field@[0] == '+' {
                            assert(secs_field@.subrange(1, secs_field@.len() as int)
                                =~= secs_field@.drop_first());
                        } else {
                            assert(secs_field@.subrange(0, secs_field@.len() as int)
                                =~= secs_field@);
                        }
                        assert(ms == m3u_millis(restv.subrange(0, ci as int)));
                    }
                    millis = ms;
                    mode = MMode::WantFile;
                    proof {
                        stv = MStateV { mode: MMode::WantFile, millis: ms, ..pre };
                        assert(mstep(pre, trimmed(linesv[i as int]), lino as int) == Ok::<
                            MStateV,
                            MErrV,
                        >(stv));
                    }
                },
                MMode::WantFile => {
                    let inf = extinf_vec();
                    if crate::chars::starts_with_chars(&line, &inf) {
                        proof {
                            assert(mrun(linesv, i as int, pre) == Err::<MStateV, MErrV>(
                                MErrV { lino: lino as int, kind: M3uErrorKind::UnexpectedInfo },
                            ));
                        }
                        return Err(M3uError { lino, kind: M3uErrorKind::UnexpectedInfo });
                    }
                    let filename = string_from_chars(&line);
                    tracks.push(Track::new(filename, millis));
                    millis = 0;
                    mode = MMode::WantInfo;
                    proof {
                        stv = MStateV {
                            mode: MMode::WantInfo,
                            millis: 0,
                            tracks: pre.tracks.push((trimmed(linesv[i as int]), pre.millis)),
                        };
                        assert(tracks_views(tracks@) =~= stv.tracks);
                        assert(mstep(pre, trimmed(linesv[i as int]), lino as int) == Ok::<
                            MStateV,
                            MErrV,
                        >(stv));
                    }
                },
            }
            proof {
                assert(mrun(linesv, i as int, pre) == mrun(linesv, i + 1, stv));
            }
        } else {
            proof {
                assert(mrun(linesv, i as int, stv) == mrun(linesv, i + 1, stv));
            }
        }
        i = i + 1;
    }
    proof {
        assert(mrun(linesv, n as int, stv) == Ok::<MStateV, MErrV>(stv));
        assert(parse_m3u_text(text@) == Ok::<MStateV, MErrV>(stv));
    }
    Ok(tracks)
}

} // verus!
