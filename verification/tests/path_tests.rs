use boxbopper::vector::{Move, Vector, VectorSm, ShrunkPath, SuperShrunkPath, PathTrait, moves_to_string};
use boxbopper::shrunkpath::{ShrunkPath128, PathTree, TreeNodeRef};
use boxbopper::shrunkpath::PathTrait as ToolPathTrait;
use boxbopper::stackstack::{StackStack, StackStack8x64, StackStack16x64};
use boxbopper::dgens::{contains_only, contains_only_set};

fn sample(n: usize) -> Vec<Move> {
    let all = [Move::Up, Move::Right, Move::Down, Move::Left];
    (0..n).map(|i| all[(i * 7 + i / 3) % 4]).collect()
}

#[test]
fn move_reverse_twice() {
    for m in [Move::Up, Move::Right, Move::Down, Move::Left] {
        assert_eq!(m.reverse().reverse(), m);
        let v = m.to_vector();
        let r = m.reverse().to_vector();
        assert_eq!(Vector(v.0 + r.0, v.1 + r.1), Vector(0, 0));
    }
    assert_eq!(Move::Up.reverse(), Move::Down);
    assert_eq!(Move::Left.to_char(), 'L');
    assert_eq!(Move::from_u32(2), Some(Move::Down));
    assert_eq!(Move::from_u32(4), None);
}

#[test]
fn vector_arithmetic() {
    let v = Vector(2, -3);
    assert_eq!(v.add(&Vector(1, 1)), Vector(3, -2));
    assert_eq!(v.double(), Vector(4, -6));
    assert_eq!(v.mul(3), Vector(6, -9));
    assert_eq!(v.rotr(), Vector(-3, -2));
    assert_eq!(v.rotl(), Vector(3, 2));
    assert_eq!(Vector(3, 2).to_index(10), 23);
    assert_eq!(v.to_string(), "(2,-3)");
    assert_eq!(VectorSm::fromv(&Vector(5, 6)).intov(), Vector(5, 6));
}

#[test]
fn shrunk_path_round_trip() {
    let moves = sample(100);
    let p = <ShrunkPath as PathTrait>::from_path(&moves);
    assert_eq!(PathTrait::len(&p), 100);
    assert_eq!(p.to_path(), moves);
    assert_eq!(PathTrait::to_string(&p), moves_to_string(&moves));
}

#[test]
fn shrunk_path_push_pop_reverse() {
    let mut p = <ShrunkPath as PathTrait>::new();
    p.push(&Move::Up);
    p.push_u8(1);
    p.append_path(&vec![Move::Down, Move::Left, Move::Left]);
    assert_eq!(PathTrait::to_string(&p), "URDLL");
    p.reverse();
    assert_eq!(PathTrait::to_string(&p), "LLDRU");
    assert_eq!(p.get_u(2), 2);
    p.set_u(2, 0);
    assert_eq!(PathTrait::to_string(&p), "LLURU");
    assert_eq!(p.pop(), Move::Up);
    assert_eq!(PathTrait::to_string(&p), "LLUR");
    assert!(p.has_room(252));
    assert!(!p.has_room(253));
}

#[test]
fn super_shrunk_path_round_trip() {
    let moves = sample(300);
    let p = <SuperShrunkPath as PathTrait>::from_path(&moves);
    assert_eq!(PathTrait::len(&p), 300);
    assert_eq!(p.to_path(), moves);
}

#[test]
fn shrunk_path_128_holds_its_moves() {
    let moves = sample(130);
    let mut p = <ShrunkPath128 as ToolPathTrait>::new();
    p.append_path(&moves);
    ToolPathTrait::push(&mut p, &Move::Left);
    let mut all = moves.clone();
    all.push(Move::Left);
    assert_eq!(p.to_path(), all);
    assert_eq!(ToolPathTrait::len(&p), 131);
    assert_eq!(ToolPathTrait::to_string(&p), moves_to_string(&all));
    p.clear();
    assert_eq!(ToolPathTrait::len(&p), 0);
    assert_eq!(p.to_path(), Vec::<Move>::new());
}

#[test]
fn tree_shares_paths() {
    let mut tree = PathTree::new();
    let mut root = TreeNodeRef::new_root(&mut tree);
    let mut a = root.push(&mut tree, 1);
    let b = a.push(&mut tree, 2);
    let a2 = root.push(&mut tree, 1);
    assert_eq!(a, a2);
    assert_eq!(b.to_string(&tree), "RD");
    assert_eq!(b.len(&tree), 2);
    assert_eq!(b.val(&tree), 2);
    assert_eq!(root.val(&tree), 0);
    assert_eq!(b.parent(&tree), a);
    assert_eq!(b.downgrade().upgrade(), b);
    let c = root.push_path(&mut tree, &vec![Move::Right, Move::Down, Move::Left]);
    assert_eq!(c.parent(&tree), b);
    assert_eq!(c.to_path(&tree), vec![Move::Right, Move::Down, Move::Left]);
    let mut other = TreeNodeRef::new_root(&mut tree);
    let d = other.push(&mut tree, 1);
    assert!(d != a);
    assert_eq!(d.to_string(&tree), "R");
}

#[test]
fn stacks() {
    let mut s = StackStack::<u64>::new();
    s.push(5);
    s.push(6);
    assert_eq!(s.len(), 2);
    assert_eq!(s.pop(), 6);
    s.clear();
    assert_eq!(s.len(), 0);
    let mut s8 = StackStack8x64::new();
    s8.push(1);
    s8.push(2);
    s8.push(3);
    s8.reverse();
    assert_eq!(s8.pop(), 1);
    let mut s16 = StackStack16x64::new();
    s16.push(300);
    assert_eq!(s16.pop(), 300);
    assert_eq!(s16.len(), 0);
}

#[test]
fn only_and_only_set() {
    assert!(contains_only(&[1, 1, 1], &1));
    assert!(!contains_only(&[1, 2, 1], &1));
    assert!(contains_only::<u8>(&[], &1));
    assert!(contains_only_set(&[1, 2, 1], &[2, 1]));
    assert!(!contains_only_set(&[1, 3], &[2, 1]));
}

#[test]
fn push_after_pop_and_clear() {
    let mut p = <ShrunkPath as PathTrait>::new();
    PathTrait::push(&mut p, &Move::Up);
    PathTrait::push(&mut p, &Move::Left);
    assert_eq!(p.pop(), Move::Left);
    PathTrait::push(&mut p, &Move::Right);
    assert_eq!(PathTrait::len(&p), 2);
    assert_eq!(p.to_path(), vec![Move::Up, Move::Right]);
    PathTrait::clear(&mut p);
    PathTrait::push(&mut p, &Move::Down);
    assert_eq!(p.to_path(), vec![Move::Down]);
    let mut q = <ShrunkPath128 as ToolPathTrait>::new();
    ToolPathTrait::push(&mut q, &Move::Left);
    q.clear();
    ToolPathTrait::push(&mut q, &Move::Up);
    assert_eq!(q.to_path(), vec![Move::Up]);
}

#[test]
fn push_path_finds_existing_nodes() {
    let mut tree = PathTree::new();
    let mut root = TreeNodeRef::new_root(&mut tree);
    let path = vec![Move::Up, Move::Up, Move::Left];
    let n = root.push_path(&mut tree, &path);
    assert_eq!(n.to_path(&tree), path);
    assert_eq!(n.len(&tree) as usize, path.len());
    let again = root.push_path(&mut tree, &path);
    assert_eq!(again, n);
    let same = root.push_path(&mut tree, &vec![]);
    assert_eq!(same, root);
    let w = n.downgrade();
    assert_eq!(w.upgrade(), n);
    assert_eq!(w.upgrade().to_path(&tree), path);
}

