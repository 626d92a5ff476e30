use lib::bigint::{mul_big, Big};
use lib::cone::{clampdown, cone_has_nonneg, det_small};
use lib::kernel::kernel_basis_exact;
use lib::burnside::{edge_orbits, factorial, gcd, lcm_to, odd_cycle_terms, s2_burnside_sum, tournament_iso_count, z_lambda};
use lib::augment::{candidates, canon_accepts, leaf_tally, Game as AGame};
use lib::regular_aug::{regular_candidates, tie_accepts, RGame};
use lib::weighted_aug::weighted_candidates;
use lib::coeff_tables::{build_cat_coeff, build_oc_coeff};
use lib::tree_canon::{tree_canon_aut, tree_centers};
use lib::two_paradox_poly::{a_v, cat_mge2, domination_counts, l_count as l_count_poly, oc_v, sk, sun_cycle, wk};
use lib::digraph6::{decode_beats, encode};
use lib::eulerian::{count_choices, fix_sigma, orientation_classes};
use lib::wl::{automorphisms, canon as wl_canon};
use lib::game::{connected, full_mask, is_prime, paradox_connected, paradox_skip0, paradoxical, rel, twin_free};
use lib::matching::{decode_g6, factor_critical, has_pm};
use lib::pfaffian::{completely_mixed, pf};
use lib::shapes::{adj_bitmask, aut_oc, build_caterpillar, build_sun, compositions, dihedral_canon, gen_seqs};
use lib::signature::{added_is_maximal, sig_cmp_with, sig_maximal};
use lib::tournament::{
    beaters_s2, build_perm, count_s_lambda, edge_orbits as pair_orbits, extend, is_s2, is_s2_rows,
    upper_triangle_beaters, Tour,
};
use lib::two_paradox::{a_tree, comb, d_rec, indep_count, l_count, poly_eval};
use lib::wide::W;
use lib::within::{star, within};
use std::collections::HashMap;

fn big_is(b: &Big, x: i128) -> bool {
    let c = Big::from_i128(x);
    b.neg == c.neg && b.mag == c.mag
}

fn rps() -> [u64; 16] {
    let mut arc = [0u64; 16];
    arc[0] = 0b010;
    arc[1] = 0b100;
    arc[2] = 0b001;
    arc
}

#[test]
fn rps_is_a_fair_prime_game() {
    let arc = rps();
    assert_eq!(full_mask(3), 7);
    assert_eq!(rel(&arc, 0, 1), 1);
    assert_eq!(rel(&arc, 1, 0), -1);
    assert_eq!(rel(&arc, 0, 0), 0);
    assert!(paradoxical(&arc, 3));
    assert!(connected(&arc, 3));
    assert!(twin_free(&arc, 3));
    assert!(is_prime(&arc, 3));
}

#[test]
fn transitive_triple_is_not_paradoxical() {
    let mut arc = [0u64; 16];
    arc[0] = 0b110;
    arc[1] = 0b100;
    assert!(!paradoxical(&arc, 3));
    assert!(connected(&arc, 3));
}

#[test]
fn isolated_vertex_disconnects() {
    let mut arc = [0u64; 16];
    arc[0] = 0b010;
    assert!(!connected(&arc, 3));
    assert!(!twin_free(&arc, 4));
}

#[test]
fn encode_rps_record() {
    let beats = [0b010u16, 0b100, 0b001];
    let mut buf = Vec::new();
    encode(&beats, 3, &mut buf);
    assert_eq!(buf, b"&BP_\n".to_vec());
}

#[test]
fn pfaffian_of_four_vertices() {
    let mut m = [[0i64; 16]; 16];
    let set = |m: &mut [[i64; 16]; 16], i: usize, j: usize, v: i64| {
        m[i][j] = v;
        m[j][i] = -v;
    };
    set(&mut m, 0, 1, 1);
    set(&mut m, 0, 2, -1);
    set(&mut m, 0, 3, 1);
    set(&mut m, 1, 2, 1);
    set(&mut m, 1, 3, 1);
    set(&mut m, 2, 3, -1);
    // a01 a23 - a02 a13 + a03 a12 = (1)(-1) - (-1)(1) + (1)(1) = 1
    assert_eq!(pf(&m, 0b1111), 1);
    assert_eq!(pf(&m, 0), 1);
    assert_eq!(pf(&m, 0b0111), 0);
    assert_eq!(pf(&m, 0b0011), 1);
}

#[test]
fn rps_is_completely_mixed() {
    let mut m = [[0i64; 16]; 16];
    for (i, j) in [(0usize, 1usize), (1, 2), (2, 0)] {
        m[i][j] = 1;
        m[j][i] = -1;
    }
    assert!(completely_mixed(&m, 3));
    let mut t = [[0i64; 16]; 16];
    for (i, j) in [(0usize, 1usize), (0, 2), (1, 2)] {
        t[i][j] = 1;
        t[j][i] = -1;
    }
    assert!(!completely_mixed(&t, 3));
}

#[test]
fn triangle_is_factor_critical_path_is_not() {
    let tri = [0b110u16, 0b101, 0b011];
    assert!(has_pm(&tri, 0b011));
    assert!(factor_critical(&tri, 3));
    let path = [0b010u16, 0b101, 0b010];
    assert!(!has_pm(&path, 0b101));
    assert!(!factor_critical(&path, 3));
}

#[test]
fn graph6_triangle() {
    let mut adj = [0u16; 3];
    decode_g6(b"Bw", 3, &mut adj);
    assert_eq!(adj, [0b110, 0b101, 0b011]);
}

#[test]
fn three_cycle_is_not_s2_but_paley_seven_is() {
    let mut c3 = Tour { n: 3, adj: [0; 12] };
    c3.adj[0] = 0b010;
    c3.adj[1] = 0b100;
    c3.adj[2] = 0b001;
    assert!(c3.beats(0, 1));
    assert!(!c3.beats(1, 0));
    assert!(!is_s2(&c3));
    let mut p7 = Tour { n: 7, adj: [0; 12] };
    for i in 0..7 {
        for d in [1usize, 2, 4] {
            p7.adj[i] |= 1 << ((i + d) % 7);
        }
    }
    assert!(is_s2(&p7));
}

#[test]
fn extend_adds_a_vertex() {
    let mut t = Tour { n: 2, adj: [0; 12] };
    t.adj[0] = 0b10;
    let e = extend(&t, 0b01);
    assert_eq!(e.n, 3);
    assert_eq!(e.adj[2], 0b001);
    assert_eq!(e.adj[0], 0b010);
    assert_eq!(e.adj[1], 0b100);
}

#[test]
fn cycle_type_permutation_and_pair_orbits() {
    let perm = build_perm(&[3, 1, 1], 5);
    assert_eq!(perm, vec![1, 2, 0, 3, 4]);
    let ident = build_perm(&[1, 1, 1], 3);
    let orbs = pair_orbits(&ident, 3);
    assert_eq!(orbs, vec![vec![(0, 1)], vec![(0, 2)], vec![(1, 2)]]);
    let cyc = build_perm(&[3], 3);
    let orbs = pair_orbits(&cyc, 3);
    assert_eq!(orbs, vec![vec![(0, 1), (1, 2), (0, 2)]]);
}

#[test]
fn seven_cycle_fixes_two_s2_tournaments() {
    let perm = build_perm(&[7], 7);
    let orbs = pair_orbits(&perm, 7);
    assert_eq!(orbs.len(), 3);
    assert_eq!(count_s_lambda(&orbs, &perm, 7), 2);
}

#[test]
fn s2_rows_and_upper_triangle() {
    // Paley tournament on 7 vertices as 32-bit rows
    let mut rows = [0u32; 7];
    for i in 0..7 {
        for d in [1usize, 2, 4] {
            rows[i] |= 1 << ((i + d) % 7);
        }
    }
    assert!(is_s2_rows(&rows, 7, 0x7f));
    // 3-cycle 0->1->2->0 as a gentourng line: pairs (0,1)=1, (0,2)=0, (1,2)=1
    let b = upper_triangle_beaters(b"101", 3);
    assert_eq!(b[1], 0b001);
    assert_eq!(b[2], 0b010);
    assert_eq!(b[0], 0b100);
    assert!(!beaters_s2(&b, 3));
}

#[test]
fn burnside_tournament_counts() {
    assert_eq!(gcd(12, 18), 6);
    assert_eq!(factorial(5), 120);
    assert_eq!(z_lambda(&[2, 2, 1]), 8);
    assert_eq!(edge_orbits(&[3]), 1);
    let expected = [1u128, 1, 2, 4, 12, 56, 456, 6880, 191536];
    for (k, &e) in expected.iter().enumerate() {
        let n = (k + 1) as u64;
        assert_eq!(tournament_iso_count(n), Some((e, 0)));
    }
}

#[test]
fn binomials_and_independent_sets() {
    assert_eq!(comb(10, 3), 120);
    assert_eq!(comb(5, 7), 0);
    let tri = [0b110u64, 0b101, 0b011];
    assert_eq!(indep_count(3, &tri), 4);
    let path = [0b010u64, 0b101, 0b010];
    assert_eq!(indep_count(3, &path), 5);
}

#[test]
fn compositions_and_caterpillar_words() {
    assert_eq!(compositions(2, 2), vec![vec![0, 2], vec![1, 1], vec![2, 0]]);
    assert_eq!(gen_seqs(3), vec![vec![2], vec![0, 1], vec![1, 0], vec![0, 0, 0]]);
}

#[test]
fn dihedral_forms_and_sun_automorphisms() {
    assert_eq!(dihedral_canon(&vec![1, 0, 0]), vec![0, 0, 1]);
    assert_eq!(aut_oc(3, &vec![0, 0, 0]), 6);
    assert_eq!(aut_oc(3, &vec![1, 0, 0]), 2);
    assert_eq!(aut_oc(3, &vec![2, 0, 0]), 4);
    let (nn, adjm) = build_sun(3, &vec![1, 0, 0]);
    assert_eq!(nn, 4);
    assert_eq!(adjm, vec![0b1110, 0b0101, 0b0011, 0b0001]);
}

#[test]
fn caterpillar_graph() {
    let (k, adj) = build_caterpillar(&vec![1, 0]);
    assert_eq!(k, 3);
    assert_eq!(adj, vec![vec![1, 2], vec![0], vec![0]]);
    assert_eq!(adj_bitmask(k, &adj), vec![0b110, 0b001, 0b001]);
}

#[test]
fn within_small_caterpillars() {
    assert!(big_is(&within(&[0]), 1));
    assert!(big_is(&within(&[1]), 2));
    assert!(big_is(&within(&[2]), 4));
    assert!(big_is(&star(2), 4));
}

#[test]
fn big_products() {
    let a = Big::from_i128(-(1i128 << 100));
    let b = Big::from_i128(3);
    let p = mul_big(&a, &b);
    assert!(p.neg);
    assert_eq!(p.mag, vec![0, 3u64 << 36]);
    assert!(big_is(&a.add(&Big::from_i128(1i128 << 100)), 0));
}

#[test]
fn wide_arithmetic() {
    let a = W::from_u64(u64::MAX);
    let s = a.add(&W::from_u64(1));
    assert_eq!(s.0, [0, 1, 0, 0]);
    let (q, r) = s.divmod_u64(10);
    assert_eq!(r, 6);
    assert_eq!(q.0, [1844674407370955161, 0, 0, 0]);
}

#[test]
fn forest_recurrence_and_tables() {
    let table = vec![(2i128, Big::from_i128(3)), (3i128, Big::from_i128(-1))];
    // 3 * 2^2 - 3^2 = 3
    assert!(big_is(&poly_eval(&table, 2), 3));
    // D(1, 0) = C(0,0) w_1 2^0 D(0, 1) = w_1
    let w = vec![Big::zero(), Big::from_i128(5), Big::from_i128(7)];
    let mut memo = HashMap::new();
    assert!(big_is(&d_rec(1, 0, &w, &mut memo), 5));
    // D(2, 0) = C(1,0) w_1 D(1,1) + C(1,1) w_2 D(0,1) = 5 * (5 * 2) + 7 = 57
    let mut memo = HashMap::new();
    assert!(big_is(&d_rec(2, 0, &w, &mut memo), 57));
    let cat = vec![vec![], vec![(1i128, Big::from_i128(5))], vec![(1i128, Big::from_i128(7))]];
    assert!(big_is(&a_tree(2, 4, &cat), 57));
    let oc = vec![vec![], vec![], vec![]];
    // L(2) = 2^1 + C(2,2) 2^0 (A_tree(2,0) + 0) = 2 + 57
    assert!(big_is(&l_count(2, &cat, &oc), 59));
}

#[test]
fn signatures_pick_a_maximal_vertex() {
    // transitive 3-game: 0 beats 1, 2; 1 beats 2
    let beats = [0b110u16, 0b100, 0b000];
    let mut od = [0u8; 16];
    let mut id = [0u8; 16];
    od[0] = 2;
    od[1] = 1;
    id[1] = 1;
    id[2] = 2;
    assert_eq!(sig_cmp_with(&beats, 3, &od, &id, 0, 1), std::cmp::Ordering::Greater);
    assert!(added_is_maximal(&beats, 3, 0));
    assert!(!added_is_maximal(&beats, 3, 2));
    assert!(sig_maximal(&beats, 3, 2, |v| v == 2));
}

fn skew_from_arcs(n: usize, arcs: &[(usize, usize)]) -> [[i64; 16]; 16] {
    let mut m = [[0i64; 16]; 16];
    for &(i, j) in arcs {
        assert!(i < n && j < n);
        m[i][j] = 1;
        m[j][i] = -1;
    }
    m
}

#[test]
fn det_small_values() {
    let mut a = [[0i128; 8]; 8];
    assert_eq!(det_small(&a, 0), 1);
    a[0][0] = 7;
    assert_eq!(det_small(&a, 1), 7);
    a[0] = [2, 3, 0, 0, 0, 0, 0, 0];
    a[1] = [5, 7, 0, 0, 0, 0, 0, 0];
    assert_eq!(det_small(&a, 2), -1);
    a[0] = [2, 0, 1, 0, 0, 0, 0, 0];
    a[1] = [1, 3, 2, 0, 0, 0, 0, 0];
    a[2] = [1, 1, 2, 0, 0, 0, 0, 0];
    assert_eq!(det_small(&a, 3), 6);
    a[0] = [1, 2, 0, 0, 0, 0, 0, 0];
    a[1] = [0, 1, 3, 0, 0, 0, 0, 0];
    a[2] = [0, 0, 1, 4, 0, 0, 0, 0];
    a[3] = [5, 0, 0, 1, 0, 0, 0, 0];
    assert_eq!(det_small(&a, 4), -119);
}

#[test]
fn kernel_of_rock_paper_scissors() {
    let m = skew_from_arcs(3, &[(0, 1), (1, 2), (2, 0)]);
    let b = kernel_basis_exact(&m, 3, 1).unwrap().unwrap();
    assert_eq!(b.len(), 1);
    let mut want = [0i64; 16];
    want[0] = 1;
    want[1] = 1;
    want[2] = 1;
    assert_eq!(b[0], want);
    assert_eq!(kernel_basis_exact(&m, 3, 2).unwrap(), None);
    assert!(cone_has_nonneg(&b, 3, 1));
}

#[test]
fn kernel_vectors_are_in_the_kernel() {
    // a five-vertex game with nullity checked against every basis vector
    let m = skew_from_arcs(5, &[(0, 1), (1, 2), (2, 3), (3, 4), (4, 0), (0, 2), (1, 3)]);
    let mut found = false;
    for d in 0..=5usize {
        if let Some(b) = kernel_basis_exact(&m, 5, d).unwrap() {
            assert!(!found);
            found = true;
            assert_eq!(b.len(), d);
            for v in &b {
                assert!(v[..5].iter().any(|&x| x != 0));
                for i in 0..5 {
                    let s: i64 = (0..5).map(|j| m[i][j] * v[j]).sum();
                    assert_eq!(s, 0);
                }
            }
        }
    }
    assert!(found);
}

#[test]
fn kernel_of_zero_matrix_is_everything() {
    let m = [[0i64; 16]; 16];
    let b = kernel_basis_exact(&m, 2, 2).unwrap().unwrap();
    let mut e0 = [0i64; 16];
    e0[0] = 1;
    let mut e1 = [0i64; 16];
    e1[1] = 1;
    assert_eq!(b, vec![e0, e1]);
    assert_eq!(kernel_basis_exact(&m, 2, 1).unwrap(), None);
}

#[test]
fn cone_sign_tests() {
    let mut mixed = [0i64; 16];
    mixed[0] = 1;
    mixed[1] = -1;
    assert!(!cone_has_nonneg(&[mixed], 3, 1));
    let mut b0 = [0i64; 16];
    b0[0] = 1;
    b0[2] = -1;
    let mut b1 = [0i64; 16];
    b1[1] = 1;
    b1[3] = -1;
    assert!(!cone_has_nonneg(&[b0, b1], 4, 2));
    let mut c0 = [0i64; 16];
    c0[0] = 1;
    c0[2] = 1;
    let mut c1 = [0i64; 16];
    c1[1] = 1;
    c1[3] = 1;
    assert!(cone_has_nonneg(&[c0, c1], 4, 2));
    // a mixed pair whose difference is nonnegative
    let mut p0 = [0i64; 16];
    p0[0] = 2;
    p0[1] = -1;
    let mut p1 = [0i64; 16];
    p1[0] = 1;
    p1[1] = -1;
    p1[2] = -1;
    assert!(cone_has_nonneg(&[p0, p1], 3, 2));
}

#[test]
fn digraph6_round_trip() {
    let beats: Vec<u16> = vec![0b010, 0b100, 0b001];
    let mut buf = Vec::new();
    encode(&beats, 3, &mut buf);
    let back = decode_beats(&buf, 3).unwrap();
    for i in 0..3 {
        assert_eq!(back[i], beats[i]);
    }
    for i in 3..16 {
        assert_eq!(back[i], 0);
    }
    // a seven-move game spanning several data bytes
    let beats7: Vec<u16> = vec![0b0000110, 0b0001100, 0b0011000, 0b0110000, 0b1100000, 0b1000001, 0b0000011];
    let mut buf7 = Vec::new();
    encode(&beats7, 7, &mut buf7);
    let back7 = decode_beats(&buf7, 7).unwrap();
    assert_eq!(&back7[..7], &beats7[..]);
}

#[test]
fn digraph6_rejects_bad_records() {
    assert!(decode_beats(b"&B", 3).is_none());
    assert!(decode_beats(b"#BP_\n", 3).is_none());
    assert!(decode_beats(b"&CP_\n", 3).is_none());
    assert!(decode_beats(b"&B!_\n", 3).is_none());
    assert!(decode_beats(b"&BP_\n", 3).is_some());
}

fn cycle_edges(n: usize) -> Vec<(usize, usize)> {
    (0..n).map(|i| (i, (i + 1) % n)).collect()
}

fn complete_edges(n: usize) -> Vec<(usize, usize)> {
    let mut e = Vec::new();
    for i in 0..n {
        for j in (i + 1)..n {
            e.push((i, j));
        }
    }
    e
}

#[test]
fn fix_sigma_on_a_square() {
    let edges = cycle_edges(4);
    let id: Vec<usize> = (0..4).collect();
    let rot: Vec<usize> = (0..4).map(|i| (i + 1) % 4).collect();
    let refl: Vec<usize> = (0..4).map(|i| (4 - i) % 4).collect();
    assert_eq!(fix_sigma(&edges, &id, 4, 1), 2);
    assert_eq!(fix_sigma(&edges, &rot, 4, 1), 2);
    assert_eq!(fix_sigma(&edges, &refl, 4, 1), 0);
    assert_eq!(fix_sigma(&edges, &id, 4, 2), 0);
}

#[test]
fn fix_sigma_counts_regular_tournaments() {
    // labeled regular tournaments on 3, 5 and 7 vertices
    for (n, want) in [(3usize, 2u128), (5, 24), (7, 2640)] {
        let edges = complete_edges(n);
        let id: Vec<usize> = (0..n).collect();
        assert_eq!(fix_sigma(&edges, &id, n, ((n - 1) / 2) as u32), want);
    }
    // the rotation of K5 fixes the two cyclic-shift tournaments' family
    let edges = complete_edges(5);
    let rot: Vec<usize> = (0..5).map(|i| (i + 1) % 5).collect();
    assert_eq!(fix_sigma(&edges, &rot, 5, 2), 4);
}

#[test]
fn count_choices_small() {
    let mut a0 = [0u8; 16];
    a0[0] = 1;
    let mut b0 = [0u8; 16];
    b0[1] = 1;
    let incs = vec![(a0, b0), (b0, a0)];
    assert_eq!(count_choices(&incs, 2, 1), 2);
    assert_eq!(count_choices(&incs, 2, 2), 0);
    assert_eq!(count_choices(&Vec::new(), 3, 0), 1);
}

#[test]
fn balanced_candidates() {
    let g0 = AGame { arc: [0u64; 16], rowsum: [0i32; 16], k: 1 };
    let c3 = candidates(&g0, 3);
    assert_eq!(c3.len(), 3);
    // code 0: move 0 beats the new move 1
    assert_eq!(c3[0].arc[0], 0b10);
    assert_eq!(c3[0].arc[1], 0);
    assert_eq!(c3[0].rowsum[0], 1);
    assert_eq!(c3[0].rowsum[1], -1);
    // code 2: the new move beats move 0
    assert_eq!(c3[2].arc[1], 0b1);
    assert_eq!(c3[2].k, 2);
    let c2 = candidates(&g0, 2);
    assert_eq!(c2.len(), 1);
    assert_eq!(c2[0].arc[0], 0);
    assert_eq!(c2[0].arc[1], 0);
    // growing RPS: the only completions of a win 0 -> 1 are balanced
    let g1 = c3[0];
    let c = candidates(&g1, 3);
    assert_eq!(c.len(), 1);
    let (t, f, p) = leaf_tally(&c[0], 3);
    assert_eq!((t, f, p), (1, 1, 1));
}

#[test]
fn canonical_parent_rule() {
    let mut lab = [0i32; 16];
    let mut orb = [0i32; 16];
    for i in 0..16 {
        lab[i] = i as i32;
        orb[i] = i as i32;
    }
    assert!(canon_accepts(&lab, &orb, 3));
    lab[3] = 1;
    assert!(!canon_accepts(&lab, &orb, 3));
    orb[1] = 3;
    assert!(canon_accepts(&lab, &orb, 3));
}

#[test]
fn leaf_tally_rejects_transitive() {
    let g = AGame { arc: [0b110, 0b100, 0, 0, 0, 0, 0, 0, 0, 0, 0, 0, 0, 0, 0, 0], rowsum: [0; 16], k: 3 };
    assert_eq!(leaf_tally(&g, 3), (0, 0, 0));
}

fn adjacency_rows(n: usize, edges: &[(usize, usize)]) -> Vec<u16> {
    let mut adj = vec![0u16; 16];
    for &(u, v) in edges {
        adj[u] |= 1 << v;
        adj[v] |= 1 << u;
    }
    let _ = n;
    adj
}

fn check_automorphism(adj: &[u16], n: usize, a: &[usize]) {
    let mut seen = vec![false; n];
    for &x in a {
        assert!(x < n && !seen[x]);
        seen[x] = true;
    }
    for v in 0..n {
        for w in 0..n {
            let e1 = adj[v] >> w & 1;
            let e2 = adj[a[v]] >> a[w] & 1;
            assert_eq!(e1, e2);
        }
    }
}

#[test]
fn automorphism_groups() {
    for (n, edges, order) in [
        (4usize, cycle_edges(4), 8usize),
        (5, cycle_edges(5), 10),
        (4, complete_edges(4), 24),
        (3, vec![(0, 1), (1, 2)], 2),
        (4, vec![(0, 1), (1, 2), (2, 3), (3, 0), (0, 2)], 4),
    ] {
        let adj = adjacency_rows(n, &edges);
        let autos = automorphisms(&adj, n);
        assert_eq!(autos.len(), order);
        let distinct: std::collections::HashSet<Vec<usize>> = autos.iter().cloned().collect();
        assert_eq!(distinct.len(), order);
        let id: Vec<usize> = (0..n).collect();
        assert_eq!(autos[0], id);
        for a in &autos {
            check_automorphism(&adj, n, a);
        }
    }
}

#[test]
fn regular_orientation_classes() {
    // the directed cycle is the only 1-regular orientation of a cycle
    assert_eq!(orientation_classes(&cycle_edges(5), 5, 1), Some(1));
    assert_eq!(orientation_classes(&cycle_edges(6), 6, 1), Some(1));
    // one regular tournament on 3 and on 5 vertices
    assert_eq!(orientation_classes(&complete_edges(3), 3, 1), Some(1));
    assert_eq!(orientation_classes(&complete_edges(5), 5, 2), Some(1));
    // no 2-regular orientation of a 4-cycle
    assert_eq!(orientation_classes(&cycle_edges(4), 4, 2), Some(0));
}

#[test]
fn tournament_census_by_canonical_codes() {
    let a000568 = [1usize, 1, 2, 4, 12, 56, 456];
    let mut reps: Vec<Tour> = vec![Tour { n: 1, adj: [0; 12] }];
    let mut s2_at_7 = 0;
    for k in 2..=7usize {
        let mut seen: std::collections::HashSet<u128> = std::collections::HashSet::new();
        let mut next: Vec<Tour> = Vec::new();
        for p in &reps {
            for ext in 0..(1u32 << (k - 1)) {
                let t = extend(p, ext as u16);
                let c = wl_canon(&t);
                assert!(c != u128::MAX);
                if seen.insert(c) {
                    if k == 7 && is_s2(&t) {
                        s2_at_7 += 1;
                    }
                    next.push(t);
                }
            }
        }
        assert_eq!(seen.len(), a000568[k - 1]);
        reps = next;
    }
    assert_eq!(s2_at_7, 1);
}

#[test]
fn isomorphic_tournaments_share_a_code() {
    // the 3-cycle in both orientations, relabelled
    let mut a = Tour { n: 3, adj: [0; 12] };
    a.adj[0] = 0b010;
    a.adj[1] = 0b100;
    a.adj[2] = 0b001;
    let mut b = Tour { n: 3, adj: [0; 12] };
    b.adj[0] = 0b100;
    b.adj[2] = 0b010;
    b.adj[1] = 0b001;
    assert_eq!(wl_canon(&a), wl_canon(&b));
    let mut c = Tour { n: 3, adj: [0; 12] };
    c.adj[0] = 0b110;
    c.adj[1] = 0b100;
    assert_ne!(wl_canon(&a), wl_canon(&c));
}

#[test]
fn decimal_text() {
    assert_eq!(Big::from_i128(0).to_string(), "0");
    assert_eq!(Big::from_i128(-1234567890123).to_string(), "-1234567890123");
    assert_eq!(Big::from_i128(i128::MAX).to_string(), "170141183460469231731687303715884105727");
    let big = mul_big(&Big::from_i128(i128::MAX), &Big::from_i128(10));
    assert_eq!(big.to_string(), "1701411834604692317316873037158841057270");
    assert_eq!(W::from_u64(0).to_string(), "0");
    assert_eq!(W::from_u64(42).to_string(), "42");
    assert_eq!(W([0, 1, 0, 0]).to_string(), "18446744073709551616");
}

fn rgame_root(d: i32) -> RGame {
    RGame { arc: [0u64; 16], out: [0i32; 16], ind: [0i32; 16], k: 1, d }
}

#[test]
fn regular_first_step_keeps_only_the_maximal_pair() {
    // n = 3, d = 1: the second move must take part in a decisive edge, and
    // only the orientation where the new move wins keeps its degree pair maximal.
    let kids = regular_candidates(&rgame_root(1), 3);
    assert_eq!(kids.len(), 1);
    let (h, mask) = kids[0];
    assert_eq!(mask, 0);
    assert_eq!(h.k, 2);
    assert_eq!(h.arc[0], 0);
    assert_eq!(h.arc[1], 0b01);
    assert_eq!((h.out[0], h.ind[0]), (0, 1));
    assert_eq!((h.out[1], h.ind[1]), (1, 0));
}

#[test]
fn regular_second_step_closes_the_cycle() {
    let kids = regular_candidates(&rgame_root(1), 3);
    let grand = regular_candidates(&kids[0].0, 3);
    assert_eq!(grand.len(), 1);
    let (h, mask) = grand[0];
    // rock-paper-scissors: every move ties the new one in signature
    assert_eq!(mask, 0b11);
    assert_eq!(h.k, 3);
    assert_eq!(h.arc[0], 0b100);
    assert_eq!(h.arc[1], 0b001);
    assert_eq!(h.arc[2], 0b010);
    for i in 0..3 {
        assert_eq!((h.out[i], h.ind[i]), (1, 1));
    }
}

#[test]
fn regular_new_move_without_room_gives_no_children() {
    // the only old move already has its full degrees (d = 1), so the new
    // move can gain at most one more decisive edge later (n = 3) and never
    // reaches one win and one loss
    let mut g = rgame_root(1);
    g.out[0] = 1;
    g.ind[0] = 1;
    assert!(regular_candidates(&g, 3).is_empty());
}

fn regular_leaves(g: &RGame, n: usize, out: &mut Vec<RGame>) {
    if g.k == n {
        out.push(*g);
        return;
    }
    for (h, _) in regular_candidates(g, n) {
        regular_leaves(&h, n, out);
    }
}

#[test]
fn regular_two_regular_five_moves_exist() {
    // d = 2 on five moves: every complete game reached has each move
    // winning twice and losing twice, and at least one is reached
    let mut leaves = Vec::new();
    regular_leaves(&rgame_root(2), 5, &mut leaves);
    assert!(!leaves.is_empty());
    for g in &leaves {
        for i in 0..5 {
            assert_eq!((g.out[i], g.ind[i]), (2, 2));
            assert_eq!(g.arc[i].count_ones(), 2);
            assert_eq!(g.arc[i] >> 5, 0);
        }
    }
}

#[test]
fn tie_rule_follows_the_last_candidate() {
    let mut lab = [0i32; 16];
    let mut orbits = [0i32; 16];
    lab[0] = 2;
    lab[1] = 0;
    lab[2] = 1;
    assert!(tie_accepts(&lab, &orbits, 0b11, 2));
    orbits[1] = 1;
    orbits[2] = 2;
    // the last candidate in the labelling is move 1, in another orbit
    assert!(!tie_accepts(&lab, &orbits, 0b11, 2));
    // without ties the new move is its own representative
    assert!(tie_accepts(&lab, &orbits, 0, 2));
    lab[0] = 2;
    lab[1] = 1;
    lab[2] = 0;
    assert!(!tie_accepts(&lab, &orbits, 0b01, 2));
    orbits[0] = 2;
    assert!(tie_accepts(&lab, &orbits, 0b01, 2));
}

#[test]
fn poly_l_matches_known_values_small() {
    assert_eq!(l_count_poly(7).to_string(), "240");
    assert_eq!(l_count_poly(8).to_string(), "109440");
}

#[test]
fn poly_l_matches_known_values_large() {
    assert_eq!(l_count_poly(9).to_string(), "77274880");
    assert_eq!(l_count_poly(10).to_string(), "107731095040");
}

#[test]
fn poly_l_eleven() {
    assert_eq!(l_count_poly(11).to_string(), "277644146489600");
}

/// Tournaments on `k` vertices in which every out-neighbourhood is
/// independent in the graph `adj` (bitmask rows).
fn within_brute(k: usize, adj: &[u32]) -> i128 {
    let pairs: Vec<(usize, usize)> = (0..k).flat_map(|i| (i + 1..k).map(move |j| (i, j))).collect();
    let mut count = 0i128;
    for mask in 0u32..(1u32 << pairs.len()) {
        let mut out = vec![0u32; k];
        for (b, &(i, j)) in pairs.iter().enumerate() {
            if mask >> b & 1 == 1 {
                out[i] |= 1 << j;
            } else {
                out[j] |= 1 << i;
            }
        }
        if (0..k).all(|v| (0..k).all(|x| out[v] >> x & 1 == 0 || adj[x] & out[v] == 0)) {
            count += 1;
        }
    }
    count
}

fn indep_brute(k: usize, adj: &[u32]) -> i128 {
    (0u32..(1u32 << k)).filter(|&s| (0..k).all(|x| s >> x & 1 == 0 || adj[x] & s == 0)).count() as i128
}

/// `sum` over labelled trees on `k <= 5` vertices (all caterpillars) of `Within * I^t`.
fn tree_sum_brute(k: usize, t: u32) -> i128 {
    let pairs: Vec<(usize, usize)> = (0..k).flat_map(|i| (i + 1..k).map(move |j| (i, j))).collect();
    let mut total = 0i128;
    for mask in 0u32..(1u32 << pairs.len()) {
        if mask.count_ones() as usize != k - 1 {
            continue;
        }
        let mut adj = vec![0u32; k];
        for (b, &(i, j)) in pairs.iter().enumerate() {
            if mask >> b & 1 == 1 {
                adj[i] |= 1 << j;
                adj[j] |= 1 << i;
            }
        }
        let mut seen = 1u32;
        loop {
            let mut nxt = seen;
            for x in 0..k {
                if seen >> x & 1 == 1 {
                    nxt |= adj[x];
                }
            }
            if nxt == seen {
                break;
            }
            seen = nxt;
        }
        if seen != (1u32 << k) - 1 {
            continue;
        }
        total += within_brute(k, &adj) * indep_brute(k, &adj).pow(t);
    }
    total
}

#[test]
fn poly_caterpillar_weights_match_brute_force() {
    for k in 2..=5usize {
        for t in 0..=2u32 {
            let want = tree_sum_brute(k, t);
            assert!(big_is(&sk(k as i128, t as i128), want), "S_{}({}) should be {}", k, t, want);
        }
    }
    assert!(big_is(&sk(2, 3), 54));
    assert!(big_is(&sk(1, 5), 0));
    assert!(big_is(&wk(2, 1), -tree_sum_brute(2, 1)));
    assert!(big_is(&wk(3, 1), tree_sum_brute(3, 1)));
    // the longer spines alone on four vertices: the twelve labelled paths
    let path = [0b0010u32, 0b0101, 0b1010, 0b0100];
    assert_eq!(indep_brute(4, &path), 8);
    assert!(big_is(&cat_mge2(4, 1), 12 * within_brute(4, &path) * 8));
}

#[test]
fn poly_triangle_sun() {
    // the triangle is the only sun on three vertices: one labelling, two
    // cyclic orientations, four independent sets; the cycle sum carries 2g
    // over the global factor 2, and three edges give the sign
    assert!(big_is(&sun_cycle(3, 0, 3), 6));
    assert!(big_is(&oc_v(3, 0), -2));
    assert!(big_is(&oc_v(3, 2), -32));
    assert!(big_is(&oc_v(2, 3), 0));
    // on two vertices only the single edge: w_2 = -S_2 = -2 * 3^t, no sun
    assert!(big_is(&a_v(2, 2), -18));
}

#[test]
fn poly_domination_distribution_seven() {
    let (g1, g2, g3, ttl) = domination_counts(7);
    assert_eq!(g1.to_string(), "229376");
    assert_eq!(g2.to_string(), "1867536");
    assert_eq!(g3.to_string(), "240");
    assert_eq!(ttl.to_string(), "2097152");
}

fn s_lambda(parts: &[u64]) -> u128 {
    let n: u64 = parts.iter().sum();
    let perm = build_perm(parts, n as usize);
    let orbs = pair_orbits(&perm, n as usize);
    count_s_lambda(&orbs, &perm, n as usize)
}

#[test]
fn s_lambda_known_small_table() {
    assert_eq!(s_lambda(&[5, 3]), 0);
    assert_eq!(s_lambda(&[3, 3, 3, 1, 1]), 102992);
}

#[test]
fn s_lambda_three_cycle_and_six_fixed() {
    assert_eq!(s_lambda(&[3, 1, 1, 1, 1, 1, 1]), 640);
}

#[test]
fn oc_tables_agree_with_the_sun_programme() {
    let tab = build_oc_coeff(9);
    assert_eq!(tab.len(), 10);
    for v in 0..3 {
        assert!(tab[v].is_empty());
    }
    // the triangle alone: I = 4, weight (-1)^3 * (3!/6) * 2
    assert_eq!(tab[3].len(), 1);
    assert_eq!(tab[3][0].0, 4);
    assert!(big_is(&tab[3][0].1, -2));
    for v in 3..=9usize {
        for t in 0..=3usize {
            let from_table = poly_eval(&tab[v], t);
            let from_dp = oc_v(v as i128, t as i128);
            assert_eq!(from_table.to_string(), from_dp.to_string(), "v={} t={}", v, t);
        }
    }
}

fn star_adj(leaves: usize) -> Vec<Vec<usize>> {
    let mut adj = vec![Vec::new(); leaves + 1];
    for v in 1..=leaves {
        adj[0].push(v);
        adj[v].push(0);
    }
    adj
}

fn path_adj(n: usize) -> Vec<Vec<usize>> {
    let mut adj = vec![Vec::new(); n];
    for v in 0..n - 1 {
        adj[v].push(v + 1);
        adj[v + 1].push(v);
    }
    adj
}

#[test]
fn tree_centres_and_canonical_forms() {
    assert_eq!(tree_centers(1, &vec![Vec::new()]), vec![0]);
    assert_eq!(tree_centers(5, &path_adj(5)), vec![2]);
    assert_eq!(tree_centers(4, &path_adj(4)), vec![1, 2]);
    assert_eq!(tree_centers(4, &star_adj(3)), vec![0]);
    // the star K_{1,3}: three interchangeable leaves
    let (s, a) = tree_canon_aut(4, &star_adj(3)).unwrap();
    assert_eq!(String::from_utf8(s).unwrap(), "(()()())");
    assert_eq!(a, 6);
    // the path on four vertices: two equal halves swapped
    let (s, a) = tree_canon_aut(4, &path_adj(4)).unwrap();
    assert_eq!(String::from_utf8(s).unwrap(), "BI((())|(()))");
    assert_eq!(a, 2);
    // the path on five vertices, centred: its two arms swap
    let (s, a) = tree_canon_aut(5, &path_adj(5)).unwrap();
    assert_eq!(String::from_utf8(s).unwrap(), "((())(()))");
    assert_eq!(a, 2);
    // relabelling the path keeps its canonical string
    let mut relabelled = vec![Vec::new(); 5];
    let order = [3usize, 0, 4, 1, 2];
    for v in 0..4 {
        relabelled[order[v]].push(order[v + 1]);
        relabelled[order[v + 1]].push(order[v]);
    }
    assert_eq!(tree_canon_aut(5, &relabelled).unwrap().0, tree_canon_aut(5, &path_adj(5)).unwrap().0);
}

#[test]
fn coefficient_tables_reproduce_l() {
    let cat = build_cat_coeff(9).unwrap();
    let oc = build_oc_coeff(9);
    assert_eq!(l_count(7, &cat, &oc).to_string(), "240");
    assert_eq!(l_count(8, &cat, &oc).to_string(), "109440");
    assert_eq!(l_count(9, &cat, &oc).to_string(), "77274880");
    for n in 1..=9usize {
        assert_eq!(l_count(n, &cat, &oc).to_string(), l_count_poly(n as i128).to_string(), "n={}", n);
    }
}

#[test]
fn caterpillar_tables_agree_with_the_spine_programme() {
    let cat = build_cat_coeff(8).unwrap();
    assert!(cat[0].is_empty() && cat[1].is_empty());
    // the single edge: I = 3, weight -2 (one labelled shape up to the factor 2!/2)
    assert_eq!(cat[2].len(), 1);
    assert_eq!(cat[2][0].0, 3);
    assert!(big_is(&cat[2][0].1, -2));
    for k in 2..=8usize {
        for t in 0..=2usize {
            let from_table = poly_eval(&cat[k], t);
            let from_dp = wk(k as i128, t as i128);
            assert_eq!(from_table.to_string(), from_dp.to_string(), "k={} t={}", k, t);
        }
    }
}

#[test]
fn paradox_test_for_a_module_at_move_zero() {
    // move 0 ties everything; moves 1, 2, 3 play rock-paper-scissors
    let mut arc = [0u64; 16];
    arc[1] = 0b0100;
    arc[2] = 0b1000;
    arc[3] = 0b0010;
    assert!(paradox_skip0(&arc, 4));
    assert!(!paradoxical(&arc, 4));
    // a move other than 0 that never loses fails the test
    let mut arc2 = arc;
    arc2[3] = 0b0110;
    arc2[1] = 0;
    assert!(!paradox_skip0(&arc2, 4));
    assert!(paradox_skip0(&rps(), 3));
    assert!(!paradox_skip0(&[0u64; 16], 0));
}

fn wroot() -> AGame {
    AGame { arc: [0u64; 16], rowsum: [0i32; 16], k: 1 }
}

fn weights(ws: &[i32]) -> [i32; 16] {
    let mut w = [1i32; 16];
    w[..ws.len()].copy_from_slice(ws);
    w
}

#[test]
fn weighted_unit_weights_first_step() {
    // with unit weights the second move either ties the first (a signature
    // tie, left to the labelling) or beats it; losing to it is not maximal
    let w = weights(&[1, 1, 1]);
    let kids = weighted_candidates(&wroot(), &w, 3);
    assert_eq!(kids.len(), 2);
    let (h, mask) = kids[0];
    assert_eq!(mask, 0b1);
    assert_eq!(h.k, 2);
    assert_eq!((h.arc[0], h.arc[1]), (0, 0));
    assert_eq!((h.rowsum[0], h.rowsum[1]), (0, 0));
    let (h, mask) = kids[1];
    assert_eq!(mask, 0);
    assert_eq!((h.arc[0], h.arc[1]), (0, 0b1));
    assert_eq!((h.rowsum[0], h.rowsum[1]), (-1, 1));
}

#[test]
fn weighted_heavy_first_move_forces_ties() {
    // a move of weight 2 cannot be matched by the single unit of weight
    // still to come, so everything ties it; moves of other weights never
    // compete with the new move
    let w = weights(&[2, 1, 1]);
    let kids = weighted_candidates(&wroot(), &w, 3);
    assert_eq!(kids.len(), 1);
    let (h, mask) = kids[0];
    assert_eq!(mask, 0);
    assert_eq!((h.arc[0], h.arc[1]), (0, 0));
    let grand = weighted_candidates(&h, &w, 3);
    assert_eq!(grand.len(), 1);
    let (f, mask) = grand[0];
    assert_eq!(mask, 0b10);
    assert_eq!(f.k, 3);
    assert_eq!((f.arc[0], f.arc[1], f.arc[2]), (0, 0, 0));
    assert_eq!((f.rowsum[0], f.rowsum[1], f.rowsum[2]), (0, 0, 0));
}

#[test]
fn weighted_unreachable_row_gives_no_children() {
    // the first move is already two units ahead with one unit to come
    let w = weights(&[1, 1, 1]);
    let mut g = wroot();
    g.rowsum[0] = 3;
    assert!(weighted_candidates(&g, &w, 3).is_empty());
}

fn weighted_leaves(g: &AGame, w: &[i32; 16], n: usize, out: &mut Vec<AGame>) {
    if g.k == n {
        out.push(*g);
        return;
    }
    for (h, _) in weighted_candidates(g, w, n) {
        weighted_leaves(&h, w, n, out);
    }
}

fn weighted_row(g: &AGame, w: &[i32; 16], n: usize, i: usize) -> i32 {
    (0..n).map(|u| w[u] * rel(&g.arc, i, u)).sum()
}

#[test]
fn weighted_completed_cores_are_weight_balanced() {
    for ws in [&[1, 1, 1][..], &[1, 1, 1, 1, 1][..], &[2, 1, 1, 1][..], &[2, 2, 1, 1, 1][..], &[3, 1, 1, 1, 1][..]] {
        let n = ws.len();
        let w = weights(ws);
        let mut leaves = Vec::new();
        weighted_leaves(&wroot(), &w, n, &mut leaves);
        // the all-tie core is always reached
        assert!(leaves.iter().any(|g| (0..n).all(|i| g.arc[i] == 0)));
        for g in &leaves {
            for i in 0..n {
                assert_eq!(weighted_row(g, &w, n, i), 0);
                assert_eq!(g.rowsum[i], 0);
                assert_eq!(g.arc[i] >> n, 0);
            }
        }
    }
    // the rock-paper-scissors cycle is among the unit-weight cores on three moves
    let w = weights(&[1, 1, 1]);
    let mut leaves = Vec::new();
    weighted_leaves(&wroot(), &w, 3, &mut leaves);
    assert!(leaves.iter().any(|g| paradoxical(&g.arc, 3)));
}

#[test]
fn kernel_elimination_leaving_i128_is_an_overflow() {
    // a skew matrix with entries near i64::MAX whose fraction-free elimination
    // produces an intermediate value outside i128
    let rows: [[i64; 4]; 4] = [
        [0, 12345678912345, 3074457345618258602, 9223372036854775807],
        [-12345678912345, 0, -98765432123, -9223372036854775807],
        [-3074457345618258602, 98765432123, 0, 9223372036854775807],
        [-9223372036854775807, 9223372036854775807, -9223372036854775807, 0],
    ];
    let mut m = [[0i64; 16]; 16];
    for i in 0..4 {
        for j in 0..4 {
            m[i][j] = rows[i][j];
        }
    }
    assert!(kernel_basis_exact(&m, 4, 0).is_err());
    assert!(kernel_basis_exact(&m, 4, 2).is_err());
}

#[test]
fn canonical_codes_split_labelled_tournaments_into_classes() {
    // every labelled tournament on k vertices: exactly A000568(k) codes
    for (k, classes) in [(3usize, 2usize), (4, 4), (5, 12)] {
        let pairs: Vec<(usize, usize)> = (0..k).flat_map(|i| (i + 1..k).map(move |j| (i, j))).collect();
        let mut codes = std::collections::HashSet::new();
        for mask in 0u32..(1u32 << pairs.len()) {
            let mut t = Tour { n: k, adj: [0; 12] };
            for (b, &(i, j)) in pairs.iter().enumerate() {
                if mask >> b & 1 == 1 {
                    t.adj[i] |= 1 << j;
                } else {
                    t.adj[j] |= 1 << i;
                }
            }
            let c = wl_canon(&t);
            assert!(c != u128::MAX);
            codes.insert(c);
        }
        assert_eq!(codes.len(), classes);
    }
}

#[test]
fn reversing_arcs_and_pfaffian_sign() {
    // a 4-cycle with a chord: reversing every arc multiplies Pf by (-1)^(4/2) = 1,
    // the 2-vertex minor by -1
    let mut m = [[0i64; 16]; 16];
    for &(i, j) in &[(0usize, 1usize), (1, 2), (2, 3), (3, 0), (0, 2)] {
        m[i][j] = 1;
        m[j][i] = -1;
    }
    let mut r = m;
    for i in 0..16 {
        for j in 0..16 {
            r[i][j] = -m[i][j];
        }
    }
    assert_eq!(pf(&r, 0b1111), pf(&m, 0b1111));
    assert_eq!(pf(&r, 0b0011), -pf(&m, 0b0011));
    assert_eq!(pf(&m, 0b0011), 1);
}

fn rps_leaf_ctx(nz: usize) -> lib::inc_leaf::LeafCtx {
    let mut pbeats = [0u16; 16];
    pbeats[0] = 0b10;
    let mut pod = [0u8; 16];
    let mut pid = [0u8; 16];
    pod[0] = 1;
    pid[1] = 1;
    let mut lcm2t = [0u128; 16];
    lcm2t[1] = 3;
    lcm2t[2] = 5;
    let mut ord = [0usize; 16];
    ord[1] = 1;
    lib::inc_leaf::LeafCtx {
        p: 2,
        nz,
        zverts: [0; 16],
        wp: 2,
        lcm: 30,
        lcm2t,
        nowin: 0b10,
        noloss: 0b01,
        parent_disconnected: false,
        pbeats,
        ord,
        obit: [0; 16],
        pod,
        pid,
        zpos: [0; 8],
        zpod: [0; 8],
        zpid: [0; 8],
        zmaxpod: 0,
        sum: 0,
        leaves: 0,
        accepted: 0,
    }
}

#[test]
fn inclusion_leaf_closes_rock_paper_scissors() {
    let mut r = [0i32; 16];
    r[0] = -1;
    r[1] = 1;
    // completely mixed parent: accepted with weight wp * lcm/(2*1)
    let mut c = rps_leaf_ctx(0);
    lib::inc_leaf::leaf(&mut c, &r, 0b10, 0b01);
    assert_eq!((c.leaves, c.accepted, c.sum), (1, 1, 6));
    // one designated move, tied with the new move: weight index 2
    let mut c = rps_leaf_ctx(1);
    lib::inc_leaf::leaf(&mut c, &r, 0b10, 0b01);
    assert_eq!((c.leaves, c.accepted, c.sum), (1, 1, 10));
    // a new move that never loses is filtered out
    let mut c = rps_leaf_ctx(0);
    lib::inc_leaf::leaf(&mut c, &r, 0, 0b11);
    assert_eq!((c.leaves, c.accepted, c.sum), (0, 0, 0));
    // move 1 has no win and must beat the new move
    let mut c = rps_leaf_ctx(0);
    lib::inc_leaf::leaf(&mut c, &r, 0b01, 0b10);
    assert_eq!((c.leaves, c.accepted, c.sum), (0, 0, 0));
}

#[test]
fn signature_maximality_survives_relabelling() {
    // 0 -> 1 -> 2 -> 0, 3 beats 0, 1 beats 3
    let mut beats = [0u16; 16];
    for &(i, j) in &[(0usize, 1usize), (1, 2), (2, 0), (3, 0), (1, 3)] {
        beats[i] |= 1 << j;
    }
    let pi = [2usize, 0, 3, 1];
    let mut beats2 = [0u16; 16];
    for u in 0..4 {
        for w in 0..4 {
            if beats[u] >> w & 1 == 1 {
                beats2[pi[u]] |= 1 << pi[w];
            }
        }
    }
    for p in 0..4 {
        assert_eq!(added_is_maximal(&beats, 4, p), added_is_maximal(&beats2, 4, pi[p]));
    }
    // some move is always maximal
    assert!((0..4).any(|p| added_is_maximal(&beats, 4, p)));
}

fn dfs_rps_ctx() -> lib::inc_leaf::LeafCtx {
    let mut c = rps_leaf_ctx(0);
    c.obit[0] = 0b01;
    c.obit[1] = 0b10;
    c
}

#[test]
fn inclusion_search_finds_the_rock_paper_scissors_child() {
    // equality row r0 + r1 = 0; the new move must lose to move 1 and beat move 0
    let mut rows = [[0i32; 16]; 20];
    rows[0][0] = 1;
    rows[0][1] = 1;
    let mut asum = [[0i32; 16]; 20];
    asum[0][0] = 2;
    asum[0][1] = 1;
    let mut s = [0i32; 20];
    let mut r = [0i32; 16];
    let mut c = dfs_rps_ctx();
    lib::inc_leaf::child_dfs(0, 2, 0, 1, &mut s, &mut r, &rows, &asum, 0, 0, 0, 0, 0, 0, &mut c);
    assert_eq!((c.leaves, c.accepted, c.sum), (1, 1, 6));
    assert_eq!(s, [0i32; 20]);
    assert_eq!(r, [0i32; 16]);
    // a strict row r0 < 0 keeps the same child
    rows[1][0] = 1;
    asum[1][0] = 1;
    let mut c = dfs_rps_ctx();
    lib::inc_leaf::child_dfs(0, 2, 1, 2, &mut s, &mut r, &rows, &asum, 0, 0, 0, 0, 0, 0, &mut c);
    assert_eq!((c.leaves, c.accepted, c.sum), (1, 1, 6));
    let mut c2 = dfs_rps_ctx();
    lib::inc_leaf::dfs_m::<2>(0, 2, [0i32; 2], &mut r, &rows, &asum, 0, 0, 0, 0, 0, 0, &mut c2);
    assert_eq!((c2.leaves, c2.accepted, c2.sum), (1, 1, 6));
    // the strict row r0 > 0 instead leaves only the child that move 1 cannot beat
    rows[1][0] = -1;
    let mut c = dfs_rps_ctx();
    lib::inc_leaf::child_dfs(0, 2, 1, 2, &mut s, &mut r, &rows, &asum, 0, 0, 0, 0, 0, 0, &mut c);
    assert_eq!((c.leaves, c.accepted, c.sum), (0, 0, 0));
    // forcing move 0 to beat the new move leaves no child either
    rows[1][0] = 1;
    let mut c = dfs_rps_ctx();
    lib::inc_leaf::child_dfs(0, 2, 1, 2, &mut s, &mut r, &rows, &asum, 0b01, 0, 0, 0, 0, 0, &mut c);
    assert_eq!((c.leaves, c.accepted, c.sum), (0, 0, 0));
}

#[test]
fn inclusion_search_matches_plain_enumeration() {
    // parent: the 5-cycle 0 -> 1 -> 2 -> 3 -> 4 -> 0, completely mixed, unit weights
    let p = 5usize;
    let mut pbeats = [0u16; 16];
    let mut pod = [0u8; 16];
    let mut pid = [0u8; 16];
    for i in 0..p {
        pbeats[i] = 1 << ((i + 1) % p);
        pod[i] = 1;
        pid[i] = 1;
    }
    let mut ord = [0usize; 16];
    let mut obit = [0u16; 16];
    for k in 0..p {
        ord[k] = (k * 2) % p;
        obit[k] = 1 << ord[k];
    }
    let mut lcm2t = [0u128; 16];
    for t in 1..16 {
        lcm2t[t] = 60 / (2 * t as u128);
    }
    let base = lib::inc_leaf::LeafCtx {
        p,
        nz: 0,
        zverts: [0; 16],
        wp: 1,
        lcm: 60,
        lcm2t,
        nowin: 0,
        noloss: 0,
        parent_disconnected: false,
        pbeats,
        ord,
        obit,
        pod,
        pid,
        zpos: [0; 8],
        zpod: [0; 8],
        zpid: [0; 8],
        zmaxpod: 0,
        sum: 0,
        leaves: 0,
        accepted: 0,
    };
    let coef = [2i32, -1, 1, -3, 1];
    let mut rows = [[0i32; 16]; 20];
    let mut asum = [[0i32; 16]; 20];
    for k in 0..p {
        rows[0][k] = coef[k];
    }
    for k in (0..p).rev() {
        asum[0][k] = asum[0][k + 1] + coef[k].abs();
    }
    for &(fplus, fminus) in &[(0u16, 0u16), (0b100, 0), (0, 0b10), (0b1, 0b10000)] {
        let mut s = [0i32; 20];
        let mut r = [0i32; 16];
        let mut c = base;
        lib::inc_leaf::child_dfs(0, p, 0, 1, &mut s, &mut r, &rows, &asum, fplus, fminus, 0, 0, 0, 0, &mut c);
        // every completion in {0, -1, 1}^p, in the search's order
        let mut e = base;
        let vals = [0i32, -1, 1];
        for code in 0..243usize {
            let mut rr = [0i32; 16];
            let mut x = code;
            for k in (0..p).rev() {
                rr[k] = vals[x % 3];
                x /= 3;
            }
            let dot: i32 = (0..p).map(|k| rr[k] * coef[k]).sum();
            let forced_fail = (0..p).any(|k| ((fplus >> k) & 1 == 1 && rr[k] != 1) || ((fminus >> k) & 1 == 1 && rr[k] != -1));
            if dot != 0 || forced_fail {
                continue;
            }
            let mut plus = 0u16;
            let mut minus = 0u16;
            for k in 0..p {
                if rr[k] > 0 {
                    plus |= obit[k];
                }
                if rr[k] < 0 {
                    minus |= obit[k];
                }
            }
            lib::inc_leaf::leaf(&mut e, &rr, plus, minus);
        }
        assert_eq!((c.leaves, c.accepted, c.sum), (e.leaves, e.accepted, e.sum));
        if fplus | fminus == 0 {
            assert!(c.leaves > 0);
        }
        assert_eq!(s, [0i32; 20]);
        assert_eq!(r, [0i32; 16]);
    }
}

#[test]
fn inclusion_search_prunes_only_rejected_children() {
    // parent: the 4-cycle 0 -> 1 -> 2 -> 3 -> 0, one designated move (2)
    let p = 4usize;
    let mut pbeats = [0u16; 16];
    let mut pod = [0u8; 16];
    let mut pid = [0u8; 16];
    for i in 0..p {
        pbeats[i] = 1 << ((i + 1) % p);
        pod[i] = 1;
        pid[i] = 1;
    }
    let mut ord = [0usize; 16];
    let mut obit = [0u16; 16];
    for k in 0..p {
        ord[k] = k;
        obit[k] = 1 << k;
    }
    let mut lcm2t = [0u128; 16];
    for t in 1..16 {
        lcm2t[t] = 60 / (2 * t as u128);
    }
    let mut zverts = [0usize; 16];
    zverts[0] = 2;
    let mut zpos = [0u8; 8];
    zpos[0] = 2;
    let mut zpod = [0u8; 8];
    zpod[0] = 1;
    let mut zpid = [0u8; 8];
    zpid[0] = 1;
    let base = lib::inc_leaf::LeafCtx {
        p,
        nz: 1,
        zverts,
        wp: 1,
        lcm: 60,
        lcm2t,
        nowin: 0,
        noloss: 0,
        parent_disconnected: false,
        pbeats,
        ord,
        obit,
        pod,
        pid,
        zpos,
        zpod,
        zpid,
        zmaxpod: 1,
        sum: 0,
        leaves: 0,
        accepted: 0,
    };
    let eq = [1i32, -1, 1, -1];
    let st = [1i32, 1, -1, 0];
    let mut rows = [[0i32; 16]; 20];
    let mut asum = [[0i32; 16]; 20];
    for k in 0..p {
        rows[0][k] = eq[k];
        rows[1][k] = st[k];
    }
    for i in 0..2 {
        for k in (0..p).rev() {
            asum[i][k] = asum[i][k + 1] + rows[i][k].abs();
        }
    }
    let mut s = [0i32; 20];
    let mut r = [0i32; 16];
    let mut c = base;
    lib::inc_leaf::child_dfs(0, p, 1, 2, &mut s, &mut r, &rows, &asum, 0, 0, 0, 0, 0, 0, &mut c);
    let mut c2 = base;
    lib::inc_leaf::dfs_m::<2>(0, p, [0i32; 2], &mut r, &rows, &asum, 0, 0, 0, 0, 0, 0, &mut c2);
    assert_eq!((c.leaves, c.accepted, c.sum), (c2.leaves, c2.accepted, c2.sum));
    let mut e = base;
    let vals = [0i32, -1, 1];
    for code in 0..81usize {
        let mut rr = [0i32; 16];
        let mut x = code;
        for k in (0..p).rev() {
            rr[k] = vals[x % 3];
            x /= 3;
        }
        let d0: i32 = (0..p).map(|k| rr[k] * eq[k]).sum();
        let d1: i32 = (0..p).map(|k| rr[k] * st[k]).sum();
        if d0 != 0 || d1 >= 0 {
            continue;
        }
        let mut plus = 0u16;
        let mut minus = 0u16;
        for k in 0..p {
            if rr[k] > 0 {
                plus |= obit[k];
            }
            if rr[k] < 0 {
                minus |= obit[k];
            }
        }
        lib::inc_leaf::leaf(&mut e, &rr, plus, minus);
    }
    assert_eq!((c.accepted, c.sum), (e.accepted, e.sum));
    assert!(c.leaves <= e.leaves);
    assert!(e.accepted > 0);
}

#[test]
fn s2_burnside_sum_seven_counts_paley_once() {
    let (total, residual) = s2_burnside_sum(7, 63).unwrap();
    assert!(residual.is_empty());
    assert_eq!(total, 5040);
    assert_eq!(total / factorial(7), 1);
}

#[test]
fn s2_burnside_sum_lists_the_wide_cycle_types() {
    let (total, residual) = s2_burnside_sum(7, 10).unwrap();
    // the 7-cycles fix 2 labelings each (coefficient 720), the (3,3,1) types 12 (coefficient 280)
    assert_eq!(total, 720 * 2 + 280 * 12);
    assert_eq!(residual, vec![(11usize, 70u128, vec![3u64, 1, 1, 1, 1]), (21, 1, vec![1; 7])]);
}

#[test]
fn s2_burnside_sum_below_seven_is_empty() {
    let (total, residual) = s2_burnside_sum(6, 63).unwrap();
    assert_eq!(total, 0);
    assert!(residual.is_empty());
}

#[test]
fn sig_cmp_with_true_degrees_agrees_with_maximality() {
    // 0 beats everyone; 1 -> 2 -> 3 -> 1 is a cycle
    let beats: [u16; 4] = [0b1110, 0b0100, 0b1000, 0b0010];
    let od: [u8; 16] = [3, 1, 1, 1, 0, 0, 0, 0, 0, 0, 0, 0, 0, 0, 0, 0];
    let id: [u8; 16] = [0, 2, 2, 2, 0, 0, 0, 0, 0, 0, 0, 0, 0, 0, 0, 0];
    for p in 0..4usize {
        let by_cmp = (0..4usize).all(|v| v == p || sig_cmp_with(&beats, 4, &od, &id, v, p) != std::cmp::Ordering::Greater);
        assert_eq!(added_is_maximal(&beats, 4, p), by_cmp);
    }
    assert!(added_is_maximal(&beats, 4, 0));
    assert!(!added_is_maximal(&beats, 4, 1));
}

#[test]
fn paradox_connected_needs_wins_losses_and_one_component() {
    // rock-paper-scissors: 0 -> 1 -> 2 -> 0
    let rps: [u16; 3] = [0b010, 0b100, 0b001];
    assert!(paradox_connected(&rps, 3));
    // transitive: move 0 never loses
    let tr: [u16; 3] = [0b110, 0b100, 0b000];
    assert!(!paradox_connected(&tr, 3));
    // two disjoint cycles: every move wins and loses, but the game falls apart
    let two: [u16; 6] = [0b000010, 0b000100, 0b000001, 0b010000, 0b100000, 0b001000];
    assert!(!paradox_connected(&two, 6));
    assert!(!paradox_connected(&rps, 0));
}

#[test]
fn lcm_to_small_values() {
    assert_eq!(lcm_to(0), 1);
    assert_eq!(lcm_to(1), 1);
    assert_eq!(lcm_to(10), 2520);
    assert_eq!(lcm_to(20), 232792560);
    assert_eq!(lcm_to(22), 232792560);
}

#[test]
fn clampdown_keeps_small_values() {
    assert_eq!(clampdown(-5), -5);
    assert_eq!(clampdown((1i128 << 62) - 1), (1i64 << 62) - 1);
}

#[test]
fn odd_cycle_terms_seven() {
    let rows = odd_cycle_terms(7);
    assert_eq!(
        rows,
        vec![
            (3u64, 720u128, vec![7u64]),
            (5, 504, vec![5, 1, 1]),
            (7, 280, vec![3, 3, 1]),
            (11, 70, vec![3, 1, 1, 1, 1]),
            (21, 1, vec![1; 7]),
        ]
    );
    let total: u128 = rows.iter().map(|(e, c, _)| c << e).sum();
    assert_eq!(total / factorial(7), 456);
}
