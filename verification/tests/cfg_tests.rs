use tracecfg::base::{Block, Instr};
use tracecfg::cfg::{Cfg, NodeBase, SplitError};
use tracecfg::trace::{Bb, ForeignInfo, TraceStmt};

fn new_instr(addr: usize) -> Instr {
    Instr { addr, hex: String::new(), text: String::new(), isbr: false }
}

fn new_trace(addr: usize) -> TraceStmt {
    TraceStmt { addr, hex: String::new(), text: String::new(), isbr: false, foreign: None }
}

/// Generates the CFG with the following basic blocks (one per line)
///  0  1  2
///  4  5  6
///  8  9 10
/// 12 13 14
fn make_base_cfg() -> Cfg {
    Cfg::from_blocks(
        (0..4)
            .map(|x| Bb { stmts: (0..3).map(|t| 4 * x + t).map(new_trace).collect() })
            .collect(),
    )
}

fn block_len_at(cfg: &Cfg, addr: usize) -> usize {
    match &cfg.verts.get(addr).unwrap().node {
        NodeBase::Block(b) => b.instrs.len(),
        NodeBase::Foreign(_) => panic!("expected a block at {}", addr),
    }
}

#[test]
fn base_split() {
    let block = Block { instrs: (10..18).map(new_instr).collect() };
    let (l, r) = block.split(14).unwrap();
    let laddrs: Vec<usize> = l.instrs.iter().map(|x| x.addr).collect();
    let raddrs: Vec<usize> = r.instrs.iter().map(|x| x.addr).collect();
    assert_eq!(laddrs, (10..14).collect::<Vec<usize>>());
    assert_eq!(raddrs, (14..18).collect::<Vec<usize>>());
}

#[test]
fn build() {
    let cfg = make_base_cfg();
    assert_eq!(cfg.verts.len(), 4);
    for (i, c) in (0..4).map(|x| 4 * x).enumerate() {
        assert_eq!(cfg.verts.key_at(i), c);
    }
    for (c1, c2) in (0..3).map(|x| (4 * x, 4 * (x + 1))) {
        assert!(cfg.edges.contains_edge(c1, c2));
    }
}

#[test]
fn cfg_split() {
    let mut cfg = make_base_cfg();
    for (i, c) in (0..4).map(|x| 4 * x).enumerate() {
        assert_eq!(cfg.verts.key_at(i), c);
    }
    let sz = cfg.verts.len();
    assert!(cfg.split(5).is_ok());
    assert_eq!(cfg.verts.len(), sz + 1);
    let vec = vec![0, 4, 5, 8, 12];
    for v in vec.iter() {
        assert!(cfg.verts.contains_key(*v));
    }
    assert_eq!(4, cfg.edges.len());
    for w in vec.windows(2) {
        assert!(cfg.edges.contains_edge(w[0], w[1]));
    }
}

#[test]
fn split_with_loop() {
    let mut cfg = make_base_cfg();
    for (i, c) in (0..4).map(|x| 4 * x).enumerate() {
        assert_eq!(cfg.verts.key_at(i), c);
    }
    // Before splitting
    //  0 -> 4
    //  4 -> 8,  4 -> 12
    //  8 -> 12, 8 -> 4
    // 12 -> 4
    cfg.edges.add_edge(4, 12);
    cfg.edges.add_edge(8, 4);
    cfg.edges.add_edge(12, 4);
    // After splitting
    //  0 -> 4
    //  4 -> 5
    //  5 -> 8,  5 -> 12
    //  8 -> 12, 8 -> 4
    // 12 -> 4
    assert!(cfg.split(5).is_ok());
    let vec = vec![(0, 4), (4, 5), (5, 8), (5, 12), (8, 12), (8, 4), (12, 4)];
    assert_eq!(5, cfg.edges.len());
    for (c1, c2) in vec {
        assert!(cfg.edges.contains_edge(c1, c2));
    }
    // Exactly these edges: each source holds exactly the listed number
    // of destinations.
    for (src, count) in [(0, 1), (4, 1), (5, 2), (8, 2), (12, 1)] {
        assert_eq!(cfg.edges.get_dests(src).unwrap().len(), count);
    }
}

#[test]
fn merge() {
    let mut cfg = make_base_cfg();
    cfg.merge(vec![(4, 8)]);
    assert_eq!(cfg.verts.len(), 3);
    assert_eq!(cfg.edges.len(), 2);
    // No reference to the merged-away address remains.
    assert!(!cfg.verts.contains_key(4));
    for i in 0..cfg.edges.len() {
        let src = cfg.edges.src_at(i);
        assert_ne!(src, 4);
        for d in cfg.edges.dests_at(i) {
            assert_ne!(*d, 4);
        }
    }
}

#[test]
fn linear_trace_scenario() {
    // 16 sequential instructions, a branch at the end of each run of
    // four, segmented and built, then split at address 5.
    let mut stmts: Vec<TraceStmt> = (0..16).map(new_trace).collect();
    for a in [3, 7, 11] {
        stmts[a].isbr = true;
    }
    let bbs = Bb::new(stmts);
    assert_eq!(bbs.len(), 4);
    let mut cfg = Cfg::from_blocks(bbs);
    assert_eq!(cfg.verts.len(), 4);
    for (i, c) in [0, 4, 8, 12].into_iter().enumerate() {
        assert_eq!(cfg.verts.key_at(i), c);
    }
    assert_eq!(cfg.edges.len(), 3);
    for (c1, c2) in [(0, 4), (4, 8), (8, 12)] {
        assert!(cfg.edges.contains_edge(c1, c2));
        assert_eq!(cfg.edges.get_dests(c1).unwrap().len(), 1);
    }
    assert!(cfg.split(5).is_ok());
    assert_eq!(cfg.verts.len(), 5);
    for (i, c) in [0, 4, 5, 8, 12].into_iter().enumerate() {
        assert_eq!(cfg.verts.key_at(i), c);
    }
    assert_eq!(cfg.edges.len(), 4);
    for (c1, c2) in [(0, 4), (4, 5), (5, 8), (8, 12)] {
        assert!(cfg.edges.contains_edge(c1, c2));
        assert_eq!(cfg.edges.get_dests(c1).unwrap().len(), 1);
    }
    assert_eq!(block_len_at(&cfg, 4), 1);
    assert_eq!(block_len_at(&cfg, 5), 3);
}

#[test]
fn split_counts_instructions() {
    let mut cfg = make_base_cfg();
    let before = block_len_at(&cfg, 8);
    assert!(cfg.split(10).is_ok());
    assert_eq!(block_len_at(&cfg, 8) + block_len_at(&cfg, 10), before);
}

#[test]
fn split_below_all_vertices_fails() {
    let mut cfg = make_base_cfg();
    assert!(matches!(cfg.split(0), Err(SplitError::NotFound)));
    assert_eq!(cfg.verts.len(), 4);
}

#[test]
fn empty_trace_gives_empty_graph() {
    let cfg = Cfg::from_blocks(Vec::new());
    assert_eq!(cfg.verts.len(), 0);
    assert_eq!(cfg.edges.len(), 0);
}

#[test]
fn split_twice_second_is_noop() {
    let mut cfg = make_base_cfg();
    assert!(cfg.split(5).is_ok());
    assert!(cfg.split(5).is_ok());
    assert_eq!(cfg.verts.len(), 5);
    assert_eq!(cfg.edges.len(), 4);
    assert_eq!(block_len_at(&cfg, 4), 1);
    assert_eq!(block_len_at(&cfg, 5), 2);
}

#[test]
fn split_misses_boundary_is_noop() {
    let mut cfg = make_base_cfg();
    // Address 3 lies beyond block 0's instructions {0, 1, 2}.
    assert!(cfg.split(3).is_ok());
    assert_eq!(cfg.verts.len(), 4);
    assert_eq!(cfg.edges.len(), 3);
}

#[test]
fn split_on_foreign_marker_fails() {
    let stmts = vec![
        TraceStmt {
            addr: 0,
            hex: "E8".to_string(),
            text: "call foreign".to_string(),
            isbr: true,
            foreign: Some(ForeignInfo { foreign_addr: 100, foreign_name: "lib".to_string() }),
        },
    ];
    let mut cfg = Cfg::from_blocks(Bb::new(stmts));
    assert_eq!(cfg.verts.len(), 2);
    assert!(cfg.verts.contains_key(0));
    assert!(cfg.verts.contains_key(100));
    assert!(cfg.edges.contains_edge(0, 100));
    // The vertex owning address 150 is the foreign marker at 100.
    assert!(matches!(cfg.split(150), Err(SplitError::Unsplittable)));
    assert_eq!(cfg.verts.len(), 2);
}

#[test]
fn overlap_resolved_while_building() {
    // The trace re-enters block 4 in its middle: the second pass over
    // the loop body starts at address 5, which the first pass had
    // buried inside the block 4..=6.
    let mut stmts: Vec<TraceStmt> = vec![4, 5, 6, 5, 6].into_iter().map(new_trace).collect();
    stmts[2].isbr = true;
    let bbs = Bb::new(stmts);
    assert_eq!(bbs.len(), 2);
    let cfg = Cfg::from_blocks(bbs);
    // Building split block 4 at the re-entry address 5.
    assert!(cfg.verts.contains_key(4));
    assert!(cfg.verts.contains_key(5));
    assert_eq!(block_len_at(&cfg, 4), 1);
    assert!(cfg.edges.contains_edge(4, 5));
}
