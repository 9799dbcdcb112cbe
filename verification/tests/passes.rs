//! The passes over a control flow graph, on graphs written out by hand.

use tinyc::ast::{BinOp, CmpOp, Layout, Prim, Ty, TypeTable};
use tinyc::graph::reachable_from;
use tinyc::ir::coalesce::copies;
use tinyc::ir::ssa::{construct_function, destruct_function, Dominators, Names};
use tinyc::ir::{
    fold_cmp, fold_logic, liveness, prune_unreachable, zero_to_subtract_from, Block, BlockId,
    BlockKind, DivGuards, Function, Instr, Num, Program, StrId, Target, Terminator, TextId, VReg,
    VRegSet, Value,
};
use tinyc::opt::{eliminate_dead, propagate};

fn reg(n: u32) -> Value {
    Value::Reg(VReg(n))
}

fn block(index: u32, kind: BlockKind, instrs: Vec<Instr>, term: Terminator) -> Block {
    Block { kind, params: Vec::new(), index, instrs, term }
}

fn jump(to: u32) -> Terminator {
    Terminator::Jump(Target::from(BlockId(to)))
}

fn branch(cond: Value, yes: u32, no: u32) -> Terminator {
    Terminator::Branch {
        cond,
        then_blk: Target::to(BlockId(yes)),
        else_blk: Target::to(BlockId(no)),
    }
}

fn function(names: &[&str], blocks: Vec<Block>) -> Function {
    Function {
        name: "f".to_string(),
        params: Vec::new(),
        ret: None,
        frame_bytes: 0,
        blocks,
        vreg_names: names.iter().map(|name| name.to_string()).collect(),
    }
}

/// `c = param; n = 1; if (c) { n = 2 } else { } print n`
fn diamond() -> Function {
    let mut f = function(
        &["c", "n"],
        vec![
            block(
                0,
                BlockKind::Entry,
                vec![
                    Instr::Param { dst: VReg(0), index: 0 },
                    Instr::Const { dst: VReg(1), val: 1 },
                ],
                branch(reg(0), 1, 2),
            ),
            block(1, BlockKind::Then, vec![Instr::Const { dst: VReg(1), val: 2 }], jump(3)),
            block(2, BlockKind::Else, vec![], jump(3)),
            block(
                3,
                BlockKind::Join,
                vec![Instr::Print { ty: Ty::Int, val: reg(1), newline: true }],
                Terminator::Return(None),
            ),
        ],
    );
    f.params = vec![VReg(0)];
    f
}

fn program(functions: Vec<Function>) -> Program {
    Program {
        functions,
        strings: Vec::new(),
        texts: Vec::new(),
        vtables: Vec::new(),
        table: TypeTable {
            classes: Vec::new(),
            enums: Vec::new(),
            arrays: Vec::new(),
            lists: Vec::new(),
            layout: Layout { word: 8 },
        },
    }
}

#[test]
fn what_is_read_before_it_is_written_is_live() {
    let live = liveness(&diamond());
    assert!(!live.live_in[0].contains(VReg(0)));
    assert!(live.live_out[0].contains(VReg(1)));
    assert!(!live.live_in[1].contains(VReg(1)), "the arm writes it first");
    assert!(live.live_in[2].contains(VReg(1)));
    assert!(live.live_in[3].contains(VReg(1)));
    assert!(!live.live_out[3].contains(VReg(1)));
    assert!(!live.live_out[0].contains(VReg(0)));
}

#[test]
fn a_set_of_registers_holds_what_was_put_in() {
    let mut a = VRegSet::new(200);
    a.insert(VReg(3));
    a.insert(VReg(130));
    a.insert(VReg(3));
    assert!(a.contains(VReg(3)) && a.contains(VReg(130)) && !a.contains(VReg(4)));
    assert_eq!(a.iter(), vec![VReg(3), VReg(130)]);

    let mut b = VRegSet::new(200);
    b.insert(VReg(4));
    assert!(b.union_with(&a));
    assert!(!b.union_with(&a), "nothing is new the second time");
    assert_eq!(b.iter(), vec![VReg(3), VReg(4), VReg(130)]);

    let mut c = VRegSet::new(200);
    assert!(c.union_without(&b, &a));
    assert_eq!(c.iter(), vec![VReg(4)]);
    assert!(!c.union_without(&b, &a));
}

#[test]
fn the_arms_of_a_diamond_meet_in_each_others_frontier() {
    let dominators = Dominators::of(&diamond());
    assert_eq!(dominators.idom(BlockId(1)), BlockId(0));
    assert_eq!(dominators.idom(BlockId(2)), BlockId(0));
    assert_eq!(dominators.idom(BlockId(3)), BlockId(0));
    assert_eq!(dominators.children()[0], vec![BlockId(1), BlockId(2), BlockId(3)]);
    assert_eq!(*dominators.predecessors(BlockId(3)), vec![BlockId(1), BlockId(2)]);
    let frontiers = dominators.frontiers();
    assert_eq!(frontiers[1], vec![BlockId(3)]);
    assert_eq!(frontiers[2], vec![BlockId(3)]);
    assert!(frontiers[0].is_empty() && frontiers[3].is_empty());
}

#[test]
fn a_loop_header_is_in_its_own_frontier() {
    let f = function(
        &["c"],
        vec![
            block(0, BlockKind::Entry, vec![Instr::Const { dst: VReg(0), val: 1 }], jump(1)),
            block(1, BlockKind::Loop, vec![], branch(reg(0), 2, 3)),
            block(2, BlockKind::Body, vec![], jump(1)),
            block(3, BlockKind::Done, vec![], Terminator::Return(None)),
        ],
    );
    let frontiers = Dominators::of(&f).frontiers();
    assert_eq!(frontiers[1], vec![BlockId(1)]);
    assert_eq!(frontiers[2], vec![BlockId(1)]);
}

#[test]
fn a_loop_entered_twice_is_below_where_its_entries_part() {
    // `1` and `3` jump to each other, and the entry to both.
    let f = function(
        &["c"],
        vec![
            block(
                0,
                BlockKind::Entry,
                vec![Instr::Param { dst: VReg(0), index: 0 }],
                branch(reg(0), 3, 1),
            ),
            block(1, BlockKind::Then, vec![], branch(reg(0), 3, 2)),
            block(2, BlockKind::Join, vec![], Terminator::Return(None)),
            block(3, BlockKind::Else, vec![], branch(reg(0), 1, 2)),
        ],
    );
    let dominators = Dominators::of(&f);
    for b in 1..4 {
        assert_eq!(dominators.idom(BlockId(b)), BlockId(0));
    }
    let frontiers = dominators.frontiers();
    assert!(frontiers[0].is_empty());
    // In reverse postorder, which is `0`, `3`, `1`, `2`.
    assert_eq!(frontiers[1], vec![BlockId(3), BlockId(2)]);
    assert_eq!(frontiers[3], vec![BlockId(1), BlockId(2)]);
}

#[test]
fn what_a_later_block_says_moves_an_earlier_one_up() {
    // The way round by `5` joins the chain `1`, `2`, `3` in its middle, and is
    // only come to behind it: the first look at `2` puts it below `1`.
    let f = function(
        &["c"],
        vec![
            block(
                0,
                BlockKind::Entry,
                vec![Instr::Param { dst: VReg(0), index: 0 }],
                branch(reg(0), 1, 5),
            ),
            block(1, BlockKind::Then, vec![], jump(2)),
            block(2, BlockKind::Else, vec![], jump(3)),
            block(3, BlockKind::Loop, vec![], branch(reg(0), 4, 5)),
            block(4, BlockKind::Join, vec![], Terminator::Return(None)),
            block(5, BlockKind::Body, vec![], jump(2)),
        ],
    );
    let dominators = Dominators::of(&f);
    let idom: Vec<u32> = (0..6).map(|b| dominators.idom(BlockId(b)).0).collect();
    assert_eq!(idom, vec![0, 0, 0, 2, 3, 0]);
}

#[test]
fn a_diamond_goes_into_ssa_form_and_comes_back() {
    let mut f = diamond();
    construct_function(&mut f);
    assert_eq!(f.blocks[3].params.len(), 1);
    let met = f.blocks[3].params[0];
    assert_eq!(f.params, vec![VReg(2)]);
    for from in [1usize, 2] {
        let targets = f.blocks[from].term.targets();
        assert_eq!(targets[0].args.len(), 1);
    }
    assert_ne!(f.blocks[1].term.targets()[0].args, f.blocks[2].term.targets()[0].args);
    assert_eq!(f.blocks[3].instrs[0].uses(), vec![met]);

    destruct_function(&mut f);
    assert!(f.blocks.iter().all(|b| b.params.is_empty()));
    for from in [1usize, 2] {
        assert!(matches!(f.blocks[from].instrs.last(), Some(Instr::Copy { dst, .. }) if *dst == met));
    }
}

#[test]
fn a_block_nothing_reaches_goes_and_the_rest_close_up() {
    let kept = prune_unreachable(vec![
        block(0, BlockKind::Entry, vec![], jump(2)),
        block(1, BlockKind::Unreachable, vec![], jump(2)),
        block(2, BlockKind::Join, vec![], Terminator::Return(None)),
    ]);
    let labels: Vec<String> = kept.iter().map(|b| b.label()).collect();
    assert_eq!(labels, vec!["entry0", "join1"]);
    assert_eq!(kept[0].term.successors(), vec![BlockId(1)]);
}

#[test]
fn reaching_follows_every_edge() {
    let graph: Vec<Vec<usize>> = vec![vec![1], vec![2, 0], vec![], vec![2]];
    assert_eq!(reachable_from(&graph, 0), vec![true, true, true, false]);
}

#[test]
fn a_known_condition_becomes_a_jump_and_its_other_arm_goes() {
    let mut f = diamond();
    f.blocks[0].instrs[0] = Instr::Const { dst: VReg(0), val: 0 };
    assert!(propagate(&mut f));
    assert_eq!(f.blocks.len(), 3);
    assert_eq!(f.blocks[0].term.successors(), vec![BlockId(1)]);
    while propagate(&mut f) {}
    let last = f.blocks.last().expect("a block").instrs.last().expect("the print");
    assert!(matches!(last, Instr::Print { val: Value::Const(1), .. }), "{last:?}");
    assert!(eliminate_dead(&mut f));
    assert!(!eliminate_dead(&mut f), "nothing is left to remove");
    let left: usize = f.blocks.iter().map(|b| b.instrs.len()).sum();
    assert_eq!(left, 1);
}

#[test]
fn joining_a_copy_takes_it_away() {
    let mut f = function(
        &["a", "b"],
        vec![block(
            0,
            BlockKind::Entry,
            vec![
                Instr::Param { dst: VReg(0), index: 0 },
                Instr::Copy { dst: VReg(1), src: reg(0) },
                Instr::Print { ty: Ty::Int, val: reg(1), newline: false },
            ],
            Terminator::Return(None),
        )],
    );
    assert!(copies(&mut f));
    assert_eq!(f.blocks[0].instrs.len(), 2);
    assert_eq!(f.blocks[0].instrs[0].def().into_iter().collect::<Vec<_>>(), f.blocks[0].instrs[1].uses());
    assert!(!copies(&mut f));
}

#[test]
fn a_copy_of_what_is_still_wanted_stays() {
    let mut f = function(
        &["a", "b"],
        vec![block(
            0,
            BlockKind::Entry,
            vec![
                Instr::Param { dst: VReg(0), index: 0 },
                Instr::Copy { dst: VReg(1), src: reg(0) },
                Instr::Bin {
                    num: Num::Int,
                    op: BinOp::Add,
                    dst: VReg(1),
                    lhs: reg(1),
                    rhs: Value::Const(1),
                },
                Instr::Print { ty: Ty::Int, val: reg(0), newline: false },
                Instr::Print { ty: Ty::Int, val: reg(1), newline: false },
            ],
            Terminator::Return(None),
        )],
    );
    assert!(!copies(&mut f));
    assert_eq!(f.blocks[0].instrs.len(), 5);
}

#[test]
fn a_version_takes_the_name_and_the_next_one_a_number() {
    let mut f = diamond();
    let mut names = Names::of(&mut f);
    assert_eq!(names.count(), 2);
    let first = names.version(VReg(1));
    let second = names.version(VReg(1));
    assert_eq!((first, second), (VReg(2), VReg(3)));
    let names = names.finish();
    assert_eq!(names[2], "n");
    assert_eq!(names[3], "n.1");
}

#[test]
fn a_comparison_of_doubles_is_not_one_of_their_bits() {
    let nan = f64::NAN.to_bits() as i64;
    let (zero, minus_zero) = (0.0f64.to_bits() as i64, (-0.0f64).to_bits() as i64);
    let fold = |num, op, a, b| fold_cmp(num, op, Value::Const(a), Value::Const(b));
    assert_eq!(fold(Num::Float, CmpOp::Eq, nan, nan), Some(0));
    assert_eq!(fold(Num::Float, CmpOp::Ne, nan, nan), Some(1));
    assert_eq!(fold(Num::Float, CmpOp::Eq, zero, minus_zero), Some(1));
    assert_eq!(fold(Num::Int, CmpOp::Eq, zero, minus_zero), Some(0));
    assert_eq!(fold(Num::Int, CmpOp::Le, -1, 0), Some(1));
    assert_eq!(fold_cmp(Num::Int, CmpOp::Lt, reg(0), Value::Const(1)), None);
}

#[test]
fn a_settled_operand_settles_the_logic() {
    use_logic(tinyc::ast::LogicOp::And, 0, Some(0));
    use_logic(tinyc::ast::LogicOp::And, 1, None);
    use_logic(tinyc::ast::LogicOp::Or, 1, Some(1));
    use_logic(tinyc::ast::LogicOp::Or, 0, None);
}

fn use_logic(op: tinyc::ast::LogicOp, left: i64, answer: Option<i64>) {
    assert_eq!(fold_logic(op, Value::Const(left)), answer);
    assert_eq!(fold_logic(op, reg(0)), None);
}

#[test]
fn what_a_negation_subtracts_from() {
    assert_eq!(zero_to_subtract_from(Num::Int), Value::Const(0));
    assert_eq!(zero_to_subtract_from(Num::Float), Value::Const((-0.0f64).to_bits() as i64));
}

#[test]
fn a_division_is_guarded_against_what_it_could_meet() {
    assert!(DivGuards::of(&reg(0), &reg(1)).any());
    assert!(!DivGuards::of(&reg(0), &Value::Const(2)).any());
    assert!(DivGuards::of(&reg(0), &Value::Const(0)).any());
    assert!(DivGuards::of(&reg(0), &Value::Const(-1)).any());
    assert!(!DivGuards::of(&Value::Const(7), &Value::Const(-1)).any());
}

#[test]
fn the_dump_of_every_kind_of_line() {
    let mut f = diamond();
    f.ret = Some(Ty::Float);
    f.blocks[2].instrs.push(Instr::StrAddr { dst: VReg(1), id: StrId(0) });
    f.blocks[2].instrs.push(Instr::PrintText { id: TextId(0) });
    f.blocks[2].instrs.push(Instr::Cast { dst: VReg(1), to: Num::Int, src: Value::Const(8.5f64.to_bits() as i64) });
    f.blocks[2].instrs.push(Instr::Fixup { at: reg(0), count: Value::Const(2), stride: 16 });
    f.blocks[2].instrs.push(Instr::CopyBytes { dst: reg(1), src: reg(0), bytes: 24 });
    f.blocks[3].term = Terminator::Return(Some(reg(1)));
    let mut p = program(vec![f]);
    p.strings.push("tab\t\u{e9}\"".chars().collect());
    p.texts.push("a \\ b\n".to_string());
    assert_eq!(
        p.dump(),
        [
            "str0 = \"tab\\t\u{e9}\\\"\"\n",
            "\n",
            "fn f(%c) -> float:\n",
            "entry0:\n",
            "  0  %c = param 0\n",
            "  1  %n = const 1\n",
            "  2  branch %c ? then1 : else2\n",
            "then1:\n",
            "  3  %n = const 2\n",
            "  4  jump join3\n",
            "else2:\n",
            "  5  %n = straddr str0\n",
            "  6  print text0 \"a \\\\ b\\n\"\n",
            "  7  %n = int 8.5f\n",
            "  8  fixup 2 of 16 bytes at %c\n",
            "  9  copy 24 bytes to %n, from %c\n",
            " 10  jump join3\n",
            "join3:\n",
            " 11  println int %n\n",
            " 12  return %n\n",
            "\n",
        ]
        .concat()
    );
}

#[test]
fn the_names_of_types() {
    let mut p = program(Vec::new());
    p.table.arrays.push(tinyc::ast::ArrayInfo { elem: Ty::Str, len: 3, bytes: 24, holds_list: false });
    p.table.lists.push(Ty::Array(tinyc::ast::ArrayId(0)));
    assert_eq!(Ty::List(tinyc::ast::ListId(0)).name(&p.table), "string[3][]");
    assert_eq!(Ty::Char.name(&p.table), Prim::Char.name());
}

#[test]
fn a_block_and_a_set_of_registers_can_be_copied() {
    let f = diamond();
    let copied: Vec<Block> = f.blocks.clone();
    assert_eq!(format!("{copied:?}"), format!("{:?}", f.blocks));

    let mut a = VRegSet::new(70);
    a.insert(VReg(65));
    let mut b = a.clone();
    assert!(a == b);
    b.insert(VReg(1));
    assert!(a != b && !a.contains(VReg(1)));
}
