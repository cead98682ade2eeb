//! Reading and writing textual game records: a bracketed command stream
//! is folded into a game record. The record format itself is a
//! collaborator of the core; the scanning helpers carry exact contracts,
//! and the command fold is specified structurally.

use vstd::prelude::*;

use crate::color::{Color, eq_ignoring_case, seq_matches_upper};
use crate::coord::Coord;
use crate::game_result::GameResult;
use crate::gametree::{GameNode, GameTree};
use crate::moves::Move;
use crate::rank::Rank;

verus! {

/// The character is one of the skipped separators: newline, carriage
/// return or space.
pub open spec fn is_skippable(c: char) -> bool {
    c == '\n' || c == '\r' || c == ' '
}

/// The length of the run of skippable characters starting at `i`.
pub open spec fn spec_skip_run(s: Seq<char>, i: int) -> int
    decreases s.len() - i,
{
    if i < 0 || i >= s.len() || !is_skippable(s[i]) {
        0
    } else {
        1 + spec_skip_run(s, i + 1)
    }
}

/// The bracketed-text contents between `i` and `end`: every character is
/// kept except backslashes, each of which is dropped together with the
/// separator run that follows it.
pub open spec fn spec_sub_string(s: Seq<char>, i: int, end: int) -> Seq<char>
    decreases (if i < end {
        end - i
    } else {
        0int
    }),
{
    if i < 0 || i >= end || end > s.len() {
        Seq::empty()
    } else if s[i] != '\u{5c}' {
        seq![s[i]] + spec_sub_string(s, i + 1, end)
    } else {
        let run = spec_skip_run(s, i + 1);
        let j = i + 1 + if run > 0 {
            run
        } else {
            0int
        };
        if j >= end {
            Seq::empty()
        } else {
            spec_sub_string(s, j, end)
        }
    }
}

/// What a move command yields: the command letter names the color, and
/// the parameter is a pass when empty (or the out-of-board marker on the
/// 19-line board) and a game-record coordinate otherwise.
pub open spec fn spec_get_move(cmd: Seq<char>, params: Seq<char>, board_size: int) -> Option<
    Move,
> {
    let color = if seq_matches_upper(cmd, "B"@) {
        Some(Color::Black)
    } else if seq_matches_upper(cmd, "W"@) {
        Some(Color::White)
    } else {
        None
    };
    match color {
        None => None,
        Some(c) => if params.len() == 0 || (params == "tt"@ && board_size == 19) {
            Some(Move::Pass(c))
        } else {
            match crate::coord::spec_parse_sgf_coord(params, board_size as u8) {
                Some(co) => Some(Move::Stone(co, c)),
                None => None,
            }
        },
    }
}

/// What parsing a komi record yields, in half-points: an optional
/// leading minus, then a fractional point count small enough for the
/// signed half-point counter.
pub open spec fn spec_parse_komi(s: Seq<char>) -> Option<int> {
    let neg = s.len() > 0 && s[0] == '-';
    let body = if neg {
        s.subrange(1, s.len() as int)
    } else {
        s
    };
    match crate::game_result::spec_parse_half_points(body) {
        Some(h) => if h > 0x7FFFFFF {
            None
        } else {
            Some(
                if neg {
                    -h
                } else {
                    h
                },
            )
        },
        None => None,
    }
}

/// The two records agree on every field.
pub open spec fn records_equal(a: GameTree, b: GameTree) -> bool {
    &&& GameTree::same_but_names(a, b)
    &&& a.spec_black_name() == b.spec_black_name()
    &&& a.spec_white_name() == b.spec_white_name()
}

/// The record is freshly made: unnamed players of unknown rank, no board
/// size, no handicap, no komi, an unknown result, no moves.
pub open spec fn spec_empty_record(t: GameTree) -> bool {
    &&& t.spec_black_name() == Seq::<char>::empty()
    &&& t.spec_white_name() == Seq::<char>::empty()
    &&& t.spec_black_rank() == Rank::Unknown
    &&& t.spec_white_rank() == Rank::Unknown
    &&& t.spec_board_size() == 0
    &&& t.spec_handicap() == 0
    &&& t.spec_komi() == 0
    &&& t.spec_result() == GameResult::Unknown
    &&& t.spec_moves() == Seq::<GameNode>::empty()
}

/// All settings of the two records agree; only the names and moves are
/// left open.
pub open spec fn settings_equal(a: GameTree, b: GameTree) -> bool {
    &&& a.spec_black_rank() == b.spec_black_rank()
    &&& a.spec_white_rank() == b.spec_white_rank()
    &&& a.spec_board_size() == b.spec_board_size()
    &&& a.spec_handicap() == b.spec_handicap()
    &&& a.spec_komi() == b.spec_komi()
    &&& a.spec_result() == b.spec_result()
}

/// What one accepted command does to the record, case by case in the
/// order the commands are tried: the format checks change nothing, each
/// setting command stores its parsed parameter and leaves every other
/// field alone, the skipped informational commands change nothing, and a
/// move command appends a bare node holding the parsed move.
pub open spec fn spec_command_ok(
    pre: GameTree,
    post: GameTree,
    cmd: Seq<char>,
    params: Seq<char>,
) -> bool {
    if seq_matches_upper(cmd, "GM"@) {
        params == seq!['1'] && records_equal(pre, post)
    } else if seq_matches_upper(cmd, "FF"@) {
        params == seq!['4'] && records_equal(pre, post)
    } else if seq_matches_upper(cmd, "SZ"@) {
        &&& params.len() > 0
        &&& crate::coord::all_digits(params)
        &&& crate::coord::dec_value(params) <= 0xFFFF
        &&& post.spec_board_size() == crate::coord::dec_value(params)
        &&& GameTree::same_but_settings(pre, post)
        &&& post.spec_black_rank() == pre.spec_black_rank()
        &&& post.spec_white_rank() == pre.spec_white_rank()
        &&& post.spec_handicap() == pre.spec_handicap()
        &&& post.spec_komi() == pre.spec_komi()
        &&& post.spec_result() == pre.spec_result()
    } else if seq_matches_upper(cmd, "PW"@) {
        &&& post.spec_white_name() == params
        &&& GameTree::same_but_names(pre, post)
        &&& post.spec_black_name() == pre.spec_black_name()
    } else if seq_matches_upper(cmd, "PB"@) {
        &&& post.spec_black_name() == params
        &&& GameTree::same_but_names(pre, post)
        &&& post.spec_white_name() == pre.spec_white_name()
    } else if seq_matches_upper(cmd, "WR"@) {
        &&& crate::rank::spec_parse_rank(params) == Some(post.spec_white_rank())
        &&& GameTree::same_but_settings(pre, post)
        &&& post.spec_black_rank() == pre.spec_black_rank()
        &&& post.spec_board_size() == pre.spec_board_size()
        &&& post.spec_handicap() == pre.spec_handicap()
        &&& post.spec_komi() == pre.spec_komi()
        &&& post.spec_result() == pre.spec_result()
    } else if seq_matches_upper(cmd, "BR"@) {
        &&& crate::rank::spec_parse_rank(params) == Some(post.spec_black_rank())
        &&& GameTree::same_but_settings(pre, post)
        &&& post.spec_white_rank() == pre.spec_white_rank()
        &&& post.spec_board_size() == pre.spec_board_size()
        &&& post.spec_handicap() == pre.spec_handicap()
        &&& post.spec_komi() == pre.spec_komi()
        &&& post.spec_result() == pre.spec_result()
    } else if seq_matches_upper(cmd, "DT"@) || seq_matches_upper(cmd, "PC"@) {
        records_equal(pre, post)
    } else if seq_matches_upper(cmd, "KM"@) {
        &&& spec_parse_komi(params) == Some(post.spec_komi() as int)
        &&& GameTree::same_but_settings(pre, post)
        &&& post.spec_black_rank() == pre.spec_black_rank()
        &&& post.spec_white_rank() == pre.spec_white_rank()
        &&& post.spec_board_size() == pre.spec_board_size()
        &&& post.spec_handicap() == pre.spec_handicap()
        &&& post.spec_result() == pre.spec_result()
    } else if seq_matches_upper(cmd, "HA"@) {
        &&& params.len() > 0
        &&& crate::coord::all_digits(params)
        &&& crate::coord::dec_value(params) <= 0xFFFF
        &&& post.spec_handicap() == crate::coord::dec_value(params)
        &&& GameTree::same_but_settings(pre, post)
        &&& post.spec_black_rank() == pre.spec_black_rank()
        &&& post.spec_white_rank() == pre.spec_white_rank()
        &&& post.spec_board_size() == pre.spec_board_size()
        &&& post.spec_komi() == pre.spec_komi()
        &&& post.spec_result() == pre.spec_result()
    } else if seq_matches_upper(cmd, "RE"@) {
        &&& crate::game_result::spec_parse_game_result(params) == Some(post.spec_result())
        &&& GameTree::same_but_settings(pre, post)
        &&& post.spec_black_rank() == pre.spec_black_rank()
        &&& post.spec_white_rank() == pre.spec_white_rank()
        &&& post.spec_board_size() == pre.spec_board_size()
        &&& post.spec_handicap() == pre.spec_handicap()
        &&& post.spec_komi() == pre.spec_komi()
    } else if seq_matches_upper(cmd, "RU"@) || seq_matches_upper(cmd, "CA"@)
        || seq_matches_upper(cmd, "ST"@) || seq_matches_upper(cmd, "AP"@) || seq_matches_upper(
        cmd,
        "TM"@,
    ) || seq_matches_upper(cmd, "OT"@) || seq_matches_upper(cmd, "AB"@) || seq_matches_upper(
        cmd,
        "AW"@,
    ) {
        records_equal(pre, post)
    } else if seq_matches_upper(cmd, "W"@) || seq_matches_upper(cmd, "B"@) {
        &&& pre.spec_board_size() <= 255
        &&& spec_get_move(cmd, params, pre.spec_board_size() as int) == Some(
            post.spec_moves().last().spec_themove(),
        )
        &&& post.spec_moves() == pre.spec_moves().push(post.spec_moves().last())
        &&& post.spec_moves().last().spec_comment() == Seq::<char>::empty()
        &&& post.spec_moves().last().spec_variants() == Seq::<GameNode>::empty()
        &&& settings_equal(pre, post)
        &&& post.spec_black_name() == pre.spec_black_name()
        &&& post.spec_white_name() == pre.spec_white_name()
    } else {
        false
    }
}

/// The record `post` is `pre` taken through the listed commands in
/// order, each applied exactly as `spec_command_ok` says.
pub open spec fn spec_record_folds(
    pre: GameTree,
    post: GameTree,
    cmds: Seq<(Seq<char>, Seq<char>)>,
) -> bool
    decreases cmds.len(),
{
    if cmds.len() == 0 {
        post == pre
    } else {
        exists|mid: GameTree|
            #[trigger] spec_command_ok(pre, mid, cmds[0].0, cmds[0].1) && spec_record_folds(
                mid,
                post,
                cmds.skip(1),
            )
    }
}

/// The record is a parse result: the empty record taken through some
/// sequence of accepted commands.
pub open spec fn spec_parsed_record(gt: GameTree) -> bool {
    exists|start: GameTree, cmds: Seq<(Seq<char>, Seq<char>)>|
        spec_empty_record(start) && #[trigger] spec_record_folds(start, gt, cmds)
}

/// Folding one more accepted command extends a fold.
proof fn lemma_folds_snoc(
    pre: GameTree,
    mid: GameTree,
    post: GameTree,
    cmds: Seq<(Seq<char>, Seq<char>)>,
    cmd: Seq<char>,
    params: Seq<char>,
)
    requires
        spec_record_folds(pre, mid, cmds),
        spec_command_ok(mid, post, cmd, params),
    ensures
        spec_record_folds(pre, post, cmds.push((cmd, params))),
    decreases cmds.len(),
{
    let pc = cmds.push((cmd, params));
    if cmds.len() == 0 {
        assert(mid == pre);
        assert(pc[0] == (cmd, params));
        assert(pc.skip(1) =~= Seq::<(Seq<char>, Seq<char>)>::empty());
        assert(spec_command_ok(pre, post, pc[0].0, pc[0].1) && spec_record_folds(
            post,
            post,
            pc.skip(1),
        ));
    } else {
        let m0 = choose|m: GameTree|
            #[trigger] spec_command_ok(pre, m, cmds[0].0, cmds[0].1) && spec_record_folds(
                m,
                mid,
                cmds.skip(1),
            );
        lemma_folds_snoc(m0, mid, post, cmds.skip(1), cmd, params);
        assert(pc[0] == cmds[0]);
        assert(pc.skip(1) =~= cmds.skip(1).push((cmd, params)));
        assert(spec_command_ok(pre, m0, pc[0].0, pc[0].1) && spec_record_folds(
            m0,
            post,
            pc.skip(1),
        ));
    }
}

/// The position of the first occurrence of `scan_ch` at or after `i` and
/// before `max`, or `max` when absent (or `i` when the window is empty).
fn scan_with_limit(s: &str, scan_ch: char, i: usize, max: usize) -> (r: usize)
    requires
        max <= s@.len(),
    ensures
        i <= r,
        i < max ==> r <= max,
        i >= max ==> r == i,
        r < max ==> s@[r as int] == scan_ch,
        forall|j: int| i <= j < r && j < max ==> s@[j] != scan_ch,
{
    let mut ii = i;
    while ii < max
        invariant
            i <= ii,
            max <= s@.len(),
            ii <= max || ii == i,
            forall|j: int| i <= j < ii && j < max ==> s@[j] != scan_ch,
        decreases max - ii,
    {
        if s.get_char(ii) == scan_ch {
            return ii;
        }
        ii += 1;
    }
    ii
}

/// The end of the separator run starting at `i`.
fn skip_cr_lf_sp(s: &str, i: usize) -> (r: usize)
    ensures
        i <= r,
        i <= s@.len() ==> r == i + spec_skip_run(s@, i as int) && r <= s@.len(),
        i > s@.len() ==> r == i,
{
    let n = s.unicode_len();
    let mut ii = i;
    while ii < n && (s.get_char(ii) == '\n' || s.get_char(ii) == '\r' || s.get_char(ii) == ' ')
        invariant
            i <= ii,
            n == s@.len(),
            i <= n ==> ii <= n,
            i <= n ==> spec_skip_run(s@, i as int) == (ii - i) + spec_skip_run(s@, ii as int),
            i > n ==> ii == i,
        decreases n - ii,
    {
        ii += 1;
    }
    ii
}

/// The bracketed-text contents between `start` and `end`, with escape
/// backslashes (and the separators they hide) removed.
fn sub_string(s: &str, start: usize, end: usize) -> (r: String)
    requires
        end <= s@.len(),
    ensures
        r@ == spec_sub_string(s@, start as int, end as int),
{
    let mut out = String::new();
    let mut i = start;
    while i < end
        invariant
            end <= s@.len(),
            spec_sub_string(s@, start as int, end as int) == out@ + spec_sub_string(
                s@,
                i as int,
                end as int,
            ),
        decreases end - i,
    {
        let c = s.get_char(i);
        if c != '\u{5c}' {
            let ghost before = out@;
            out.append(s.substring_char(i, i + 1));
            proof {
                assert(s@.subrange(i as int, i + 1) =~= seq![s@[i as int]]);
                assert(out@ + spec_sub_string(s@, i + 1, end as int) =~= before + (seq![
                    s@[i as int],
                ] + spec_sub_string(s@, i + 1, end as int)));
            }
            i += 1;
        } else {
            let j = skip_cr_lf_sp(s, i + 1);
            if j >= end {
                proof {
                    assert(out@ + spec_sub_string(s@, i as int, end as int) =~= out@);
                }
                return out;
            }
            i = j;
        }
    }
    proof {
        assert(out@ + spec_sub_string(s@, i as int, end as int) =~= out@);
    }
    out
}

/// A move command folded into a move.
fn get_move(cmd: &str, params: &str, board_size: usize) -> (r: Result<Move, ()>)
    requires
        board_size <= 255,
    ensures
        match r {
            Ok(m) => spec_get_move(cmd@, params@, board_size as int) == Some(m),
            Err(_) => spec_get_move(cmd@, params@, board_size as int) is None,
        },
{
    let color: Color;
    if eq_ignoring_case(cmd, "B") {
        color = Color::Black;
    } else if eq_ignoring_case(cmd, "W") {
        color = Color::White;
    } else {
        return Err(());
    }
    proof {
        reveal_strlit("B");
        reveal_strlit("W");
        if seq_matches_upper(cmd@, "B"@) && seq_matches_upper(cmd@, "W"@) {
            assert(!crate::color::char_matches_upper(cmd@[0], 'B')
                || !crate::color::char_matches_upper(cmd@[0], 'W'));
        }
    }
    let is_tt = params.unicode_len() == 2 && params.get_char(0) == 't' && params.get_char(1) == 't';
    proof {
        reveal_strlit("tt");
        if is_tt {
            assert(params@ =~= "tt"@);
        }
        if params@ == "tt"@ {
            assert(params@.len() == 2 && params@[0] == 't' && params@[1] == 't');
        }
    }
    if params.unicode_len() == 0 || (is_tt && board_size == 19) {
        return Ok(Move::Pass(color));
    }
    match Coord::from_sgf(params, board_size as u8) {
        Ok(c) => Ok(Move::Stone(c, color)),
        Err(_) => Err(()),
    }
}

/// Folds one named command and its bracketed contents into the record.
fn apply_command(gt: &mut GameTree, cmd: &str, params: String) -> (r: Result<(), ()>)
    ensures
        match r {
            Ok(_) => spec_command_ok(*old(gt), *final(gt), cmd@, params@),
            Err(_) => true,
        },
{
    let ghost pv = params@;
    if eq_ignoring_case(cmd, "GM") {
        if !(params.unicode_len() == 1 && params.as_str().get_char(0) == '1') {
            return Err(());
        }
        proof {
            reveal_strlit("1");
            assert(pv =~= seq!['1']);
        }
    } else if eq_ignoring_case(cmd, "FF") {
        if !(params.unicode_len() == 1 && params.as_str().get_char(0) == '4') {
            return Err(());
        }
        proof {
            reveal_strlit("4");
            assert(pv =~= seq!['4']);
        }
    } else if eq_ignoring_case(cmd, "SZ") {
        match parse_usize(params.as_str()) {
            Some(size) => gt.set_board_size(size),
            None => {
                return Err(());
            },
        }
    } else if eq_ignoring_case(cmd, "PW") {
        gt.set_white_name(params);
    } else if eq_ignoring_case(cmd, "PB") {
        gt.set_black_name(params);
    } else if eq_ignoring_case(cmd, "WR") {
        match Rank::from_str(params.as_str()) {
            Ok(rank) => gt.set_white_rank(rank),
            Err(_) => {
                return Err(());
            },
        }
    } else if eq_ignoring_case(cmd, "BR") {
        match Rank::from_str(params.as_str()) {
            Ok(rank) => gt.set_black_rank(rank),
            Err(_) => {
                return Err(());
            },
        }
    } else if eq_ignoring_case(cmd, "DT") {
        // the game's date: skipped
    } else if eq_ignoring_case(cmd, "PC") {
        // where the game was played: skipped
    } else if eq_ignoring_case(cmd, "KM") {
        match parse_komi_half(params.as_str()) {
            Some(komi) => gt.set_komi(komi),
            None => {
                return Err(());
            },
        }
    } else if eq_ignoring_case(cmd, "HA") {
        match parse_usize(params.as_str()) {
            Some(ha) => if ha <= 0xFFFF {
                gt.set_handicap(ha as u16);
            } else {
                return Err(());
            },
            None => {
                return Err(());
            },
        }
    } else if eq_ignoring_case(cmd, "RE") {
        match GameResult::from_str(params.as_str()) {
            Ok(result) => gt.set_result(result),
            Err(_) => {
                return Err(());
            },
        }
    } else if eq_ignoring_case(cmd, "RU") {
        // the rule set: skipped
    } else if eq_ignoring_case(cmd, "CA") {
        // the character set: skipped
    } else if eq_ignoring_case(cmd, "ST") {
        // how variations are shown: skipped
    } else if eq_ignoring_case(cmd, "AP") {
        // the writing application: skipped
    } else if eq_ignoring_case(cmd, "TM") {
        // the time limit: skipped
    } else if eq_ignoring_case(cmd, "OT") {
        // the overtime method: skipped
    } else if eq_ignoring_case(cmd, "AB") || eq_ignoring_case(cmd, "AW") {
        // added stones are assumed to be covered by the handicap setting
    } else if eq_ignoring_case(cmd, "W") || eq_ignoring_case(cmd, "B") {
        let bs = gt.board_size();
        if bs > 255 {
            return Err(());
        }
        match get_move(cmd, params.as_str(), bs) {
            Ok(m) => gt.push(GameNode::new_simple(m)),
            Err(_) => {
                return Err(());
            },
        }
    } else {
        return Err(());
    }
    Ok(())
}

/// Reads one `NAME[contents]` command starting at `i` and folds it into
/// the record; a bare `[contents]` reuses the previous command's name.
/// On success the returned position lies strictly past `i`, at the
/// character after the closing bracket, and the record took exactly one
/// accepted command's effect, under the returned command name and the
/// contents the ghost result names.
fn process_command_if_avail(gt: &mut GameTree, s: &str, i: usize, prev_cmd: String) -> (r: Result<
    (usize, String, Ghost<Seq<char>>),
    (),
>)
    ensures
        match r {
            Ok((p, c, gp)) => i < p <= s@.len() && spec_command_ok(
                *old(gt),
                *final(gt),
                c@,
                gp@,
            ),
            Err(_) => true,
        },
{
    let n = s.unicode_len();
    if i >= n {
        return Err(());
    }
    let next_open_bracket = scan_with_limit(s, '[', i, n);
    if next_open_bracket >= n {
        return Err(());
    }
    let next_closing_bracket = scan_with_limit(s, ']', next_open_bracket, n);
    if next_closing_bracket >= n {
        return Err(());
    }
    let cmd = if i == next_open_bracket {
        prev_cmd
    } else {
        sub_string(s, i, next_open_bracket)
    };
    let params = sub_string(s, next_open_bracket + 1, next_closing_bracket);
    let ghost pv = params@;
    match apply_command(gt, cmd.as_str(), params) {
        Ok(_) => Ok((next_closing_bracket + 1, cmd, Ghost(pv))),
        Err(_) => Err(()),
    }
}

/// Parses an unsigned decimal number, rejecting anything else.
fn parse_usize(s: &str) -> (r: Option<usize>)
    ensures
        match r {
            Some(v) => crate::coord::all_digits(s@) && s@.len() > 0 && crate::coord::dec_value(s@)
                == v && v <= 0xFFFF,
            None => !crate::coord::all_digits(s@) || s@.len() == 0 || crate::coord::dec_value(s@)
                > 0xFFFF,
        },
{
    let n = s.unicode_len();
    if n == 0 {
        return None;
    }
    let mut acc: usize = 0;
    let mut i: usize = 0;
    while i < n
        invariant
            0 <= i <= n,
            n == s@.len(),
            crate::coord::all_digits(s@.subrange(0, i as int)),
            acc == crate::coord::dec_value(s@.subrange(0, i as int)),
            acc <= 0xFFFF,
        decreases n - i,
    {
        let c = s.get_char(i) as u32;
        if c < 48 || c > 57 {
            assert(!crate::coord::all_digits(s@)) by {
                assert(!crate::coord::is_digit_char(s@[i as int]));
            }
            return None;
        }
        proof {
            let p = s@.subrange(0, i + 1);
            assert(p.drop_last() =~= s@.subrange(0, i as int));
            assert(p.last() == s@[i as int]);
        }
        acc = acc * 10 + ((c - 48) as usize);
        if acc > 0xFFFF {
            proof {
                if crate::coord::all_digits(s@) {
                    crate::coord::lemma_dec_value_prefix(s@, i + 1);
                }
            }
            return None;
        }
        i += 1;
    }
    proof {
        assert(s@.subrange(0, n as int) =~= s@);
    }
    Some(acc)
}

/// Parses a komi value into half-points, with an optional leading minus.
fn parse_komi_half(s: &str) -> (r: Option<i32>)
    ensures
        match r {
            Some(v) => spec_parse_komi(s@) == Some(v as int),
            None => spec_parse_komi(s@) is None,
        },
{
    let n = s.unicode_len();
    let neg = n > 0 && s.get_char(0) == '-';
    let body = if neg {
        s.substring_char(1, n)
    } else {
        s
    };
    match crate::game_result::half_points_from_str(body) {
        Some(h) => {
            if h > 0x7FFFFFF {
                return None;
            }
            if neg {
                Some(-(h as i32))
            } else {
                Some(h as i32)
            }
        },
        None => None,
    }
}

/// Parses a whole game record: an opening parenthesis, a stream of
/// commands separated by semicolons and separators, and a closing
/// parenthesis that must end the text. A successful parse yields a
/// record that is the empty record taken through some sequence of
/// accepted commands, each command's effect exactly as specified.
pub fn parse(s: String) -> (r: Result<GameTree, ()>)
    ensures
        match r {
            Ok(gt) => spec_parsed_record(gt),
            Err(_) => true,
        },
{
    let text = s.as_str();
    let mut gt = GameTree::new();
    let ghost start = gt;
    match recursive_greedy_parser(&mut gt, text, 0) {
        Ok((ii, gc)) => {
            if ii == text.unicode_len() {
                proof {
                    assert(spec_parsed_record(gt)) by {
                        assert(spec_empty_record(start) && spec_record_folds(start, gt, gc@));
                    }
                }
                Ok(gt)
            } else {
                Err(())
            }
        },
        Err(_) => Err(()),
    }
}

/// Scans the command stream greedily from `i`, folding each command into
/// the record, until the closing parenthesis or the end of the text.
fn recursive_greedy_parser(gt: &mut GameTree, s: &str, i: usize) -> (r: Result<
    (usize, Ghost<Seq<(Seq<char>, Seq<char>)>>),
    (),
>)
    ensures
        match r {
            Ok((p, gc)) => p <= s@.len() + 1 && spec_record_folds(*old(gt), *final(gt), gc@),
            Err(_) => true,
        },
{
    let n = s.unicode_len();
    let mut prev_cmd: String = String::new();
    let ghost mut applied: Seq<(Seq<char>, Seq<char>)> = Seq::empty();
    let mut ii = skip_cr_lf_sp(s, i);
    if ii < n {
        if s.get_char(ii) != '(' {
            return Err(());
        } else {
            ii = ii + 1;
        }
    }
    ii = skip_cr_lf_sp(s, ii);
    loop
        invariant
            n == s@.len(),
            spec_record_folds(*old(gt), *gt, applied),
        decreases n + 1 - ii,
    {
        if ii > n {
            return Err(());
        }
        if ii < n {
            let ch = s.get_char(ii);
            if ch == ')' {
                ii = ii + 1;
                return Ok((ii, Ghost(applied)));
            }
            if ch == ';' {
                ii = ii + 1;
                ii = skip_cr_lf_sp(s, ii);
                if ii < n && s.get_char(ii) == ')' {
                    return Ok((ii + 1, Ghost(applied)));
                }
            }
        } else {
            return Ok((ii, Ghost(applied)));
        }
        let ghost gt_before = *gt;
        match process_command_if_avail(gt, s, ii, prev_cmd) {
            Ok((p, cmd, gp)) => {
                proof {
                    lemma_folds_snoc(*old(gt), gt_before, *gt, applied, cmd@, gp@);
                    applied = applied.push((cmd@, gp@));
                }
                ii = p;
                prev_cmd = cmd;
            },
            Err(_) => {
                return Err(());
            },
        }
        ii = skip_cr_lf_sp(s, ii);
    }
}

/// Writing game records is not offered yet: the writer yields an empty
/// record text.
pub fn write() -> (r: String)
    ensures
        r@ == Seq::<char>::empty(),
{
    String::new()
}

} // verus!
