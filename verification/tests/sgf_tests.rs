use weirustqi::color::Color;
use weirustqi::game_result::GameResult;
use weirustqi::moves::Move;
use weirustqi::rank::Rank;
use weirustqi::sgf::parse;

#[test]
fn no_moves_just_headers() {
    let gt = parse(
        "(;GM[1]\nFF[4]\nSZ[19]\nPW[gaopo]\nWR[2d]\nPB[Dom]\nBR[6d]\nDT[2015-05-31]
PC[The KGS Go Server at http://www.gokgs.com/]\nKM[6.50]\nRE[B+13.50]\nRU[Japanese]CA[UTF-8]\nST[2]
AP[CGoban:3]\nTM[0]\nOT[3x10 byo-yomi] HA[4])"
            .to_string(),
    )
    .unwrap();
    assert_eq!(19, gt.board_size());
    assert_eq!("gaopo", gt.white_name());
    assert_eq!(Rank::Dan(2, true), *gt.white_rank());
    assert_eq!("Dom", gt.black_name());
    assert_eq!(Rank::Dan(6, true), *gt.black_rank());
    assert_eq!(13, gt.komi());
    assert_eq!(4, gt.handicap());
}

#[test]
fn it_handles_back_slashes() {
    let gt = parse("(;GM[1];FF[4];SZ[19];PW[ed\\uar\\do])".to_string()).unwrap();
    assert_eq!("eduardo", gt.white_name());
}

#[test]
fn happy_path() {
    let gt = parse(
        "(;GM[1] FF[4] SZ[19] PW[somerville] WR[7d] PB[yz221] BR[5d] DT[2011-02-01]
                      PC[The KGS Go Server at http://www.gokgs.com/] KM[0.50] RE[B+Resign] RU[AGA]
                      OT[100x10 byo-yomi] CA[UTF-8] ST[2] AP[CGoban:3] TM[0] HA[2] AB[pd] [dp]
                      ;W[qp];B[dd];W[fq];B[op];W[mp];B[on];W[qn];B[qq];W[rq];B[pq];W[ro];B[ip]
                      ;W[mn];B[ol];W[fo];B[dn];W[in];B[gp];W[fp];B[hn];W[ho];B[io];W[hm];B[gn]
                      ;W[go];B[jn];W[im];B[lo];W[mo];B[jm];W[jl];B[lm];W[ln];B[km];W[oo];B[po]
                      ;W[no];B[pn];W[pp];B[qm];W[qo];B[gm];W[jo];B[gl];W[hk];B[hl];W[il];B[ik]
                      ;W[jk];B[ij];W[mm];B[jj];W[ll];B[ko];W[kn];B[jp];W[kq];B[lj];W[kl];B[em]
                      ;W[ch];B[cf];W[ck];B[bl];W[ek];B[bk];W[fh];B[ff];W[bj];B[gh];W[cl];B[bm]
                      ;W[gi];B[hh];W[fg];B[gf];W[gk];B[dq];W[er];B[dr];W[rm];B[qf];W[kc];B[mc]
                      ;W[hc];B[gb];W[hb];B[lb];W[fd];B[fc];W[ec];B[eb];W[ed];B[dc];W[he];B[gd]
                      ;W[gc];B[fb];W[ge];B[fe];W[hd];B[kb];W[kf];B[jc];W[jd];B[kd];W[ic];B[lc]
                      ;W[ke];B[je];W[hf];B[gg];W[ie];B[id];W[ee];B[ef];W[jd];B[fi];W[ei];B[id]
                      ;W[de];B[ce];W[jd];B[fj];W[dg];B[df];W[jf];B[ej];W[dj];B[di];W[ci];B[eh]
                      ;W[eg];B[gj];W[dh];B[ei];W[hj];B[hi];W[fk];B[gi];W[cm];B[cn];W[gd];B[ql]
                      ;W[qi];B[oi];W[pg];B[qg];W[ph];B[rl];W[ng];B[lg];W[mf];B[lf];W[le];B[me]
                      ;W[ne];B[md];W[od];B[oc];W[pe];B[qd];W[nk];B[ni];W[pj];B[ok];W[oj];B[nj]
                      ;W[mk];B[pi];W[qj];B[qh];W[mj];B[mi];W[li];B[kh];W[kj];B[ki];W[pf];B[qe]
                      ;W[lk];B[mh];W[cd];B[cc];W[bg];B[el];W[bd];B[bc];W[af];B[ig];W[bf];B[ah]
                      ;W[be];B[ad];W[jg];B[jh];W[mg];B[of];W[oh];B[oe];W[ii];B[ji];W[ai];B[bh]
                      ;W[cg];B[nd];W[if];B[nf];W[sl];B[sk];W[sm];B[sn];W[rn];B[rk];W[rh];B[ri]
                      ;W[rj];B[sj];W[si];B[pk];W[om];B[nm];W[nn];B[pm];W[nl];B[qk];W[ds];B[cs]
                      ;W[es];B[br];W[jb];B[kc];W[ga];B[db];W[fa];B[bb];W[eo];B[do];W[en];B[dm])"
            .to_string(),
    )
    .unwrap();

    assert_eq!("yz221", gt.black_name());
    assert_eq!("somerville", gt.white_name());
    assert_eq!(Rank::Dan(5, true), *gt.black_rank());
    assert_eq!(Rank::Dan(7, true), *gt.white_rank());
    assert_eq!(GameResult::Resign(Color::Black), *gt.result());
    assert_eq!(240, gt.moves().len());
    assert_eq!(Move::from_str("Black N11").unwrap(), gt.moves()[173].themove());
    assert_eq!(Move::from_str("White H9").unwrap(), gt.moves()[44].themove());
    assert_eq!(Move::from_str("White R4").unwrap(), gt.moves()[0].themove());
    assert_eq!(Move::from_str("Black D7").unwrap(), gt.moves()[239].themove());
}

#[test]
fn separators_after_the_opening_parenthesis_are_skipped() {
    let gt = parse("( ;GM[1] FF[4] SZ[19])".to_string()).unwrap();
    assert_eq!(19, gt.board_size());
    let gt2 = parse("(\n;GM[1] FF[4] SZ[13])".to_string()).unwrap();
    assert_eq!(13, gt2.board_size());
}

#[test]
fn malformed_records_are_rejected() {
    assert!(parse("no parens".to_string()).is_err());
    assert!(parse("(;GM[2])".to_string()).is_err());
    assert!(parse("(;FF[3])".to_string()).is_err());
    assert!(parse("(;ZZ[1])".to_string()).is_err());
    assert!(parse("(;GM[1];SZ[nineteen])".to_string()).is_err());
}

#[test]
fn write_yields_an_empty_record() {
    assert_eq!("", weirustqi::sgf::write());
}
