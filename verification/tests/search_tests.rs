use boxbopper::level::Level;
use boxbopper::obj::Obj;
use boxbopper::solve::solve_level;
use boxbopper::unsolve::unsolve_level;
use boxbopper::generate::{random_level_creator, random_string, select_unique_n_from, smallest_keys, is_pullable};
use boxbopper::vector::Vector;
use rand::SeedableRng;
use rand_chacha::ChaCha8Rng;

fn is_name(s: &str) -> bool {
    let k = "bdfghjklmnprstvwyz";
    let v = "aeiou";
    let cs: Vec<char> = s.chars().collect();
    cs.len() == 10 && (0..5).all(|i| k.contains(cs[2 * i]) && v.contains(cs[2 * i + 1]))
}

#[test]
fn solves_the_first_level() {
    let level = Level::from_builtin(0).unwrap();
    let sol = solve_level(&level, 200, 100000).unwrap();
    assert_eq!(sol.moves, 6);
    assert_eq!(sol.depth, 3);
    assert_eq!(sol.path, "RRRRRR");
}

#[test]
fn too_few_moves_find_nothing() {
    let level = Level::from_builtin(0).unwrap();
    assert!(solve_level(&level, 5, 100000).is_none());
}

#[test]
fn random_names() {
    let mut rng = ChaCha8Rng::seed_from_u64(7);
    for _ in 0..20 {
        assert!(is_name(&random_string(&mut rng)));
    }
}

#[test]
fn random_level_is_built() {
    let mut rng = ChaCha8Rng::seed_from_u64(0x0d47d47000000000);
    let (level, params) = random_level_creator(5, 5, 20, 20, &mut rng);
    assert_eq!(level.w, 5);
    assert_eq!(level.h, 5);
    assert!(is_name(&level.get_title_str()));
    let boxes = level.get_box_count();
    assert_eq!(params, format!("width: 5\nheight: 5\nwall_density: 20\nbox_density: 20\nnum_boxxes: {}\n", boxes));
    let mut humans = 0;
    for i in 0..25 {
        let o = level.get_obj_at_idx(i);
        assert!(o == Obj::Space || o == Obj::Wall || o == Obj::Human || o == Obj::BoxxInHole);
        if o == Obj::Human { humans += 1; }
    }
    assert_eq!(humans, 1);
}

#[test]
fn pullable_needs_two_free_cells() {
    let level = Level::from_str("#######\n#&  *O#\n#######\n").unwrap();
    assert!(is_pullable(&level, &Vector(2, 0)));
    let walled = Level::from_str("#####\n#&*O#\n#####\n").unwrap();
    assert!(!is_pullable(&walled, &Vector(1, 0)));
}

#[test]
fn unique_picks() {
    let mut rng = ChaCha8Rng::seed_from_u64(3);
    let r = select_unique_n_from(3, 10, &mut rng);
    assert_eq!(r.len(), 3);
    for i in 0..3 {
        assert!(r[i] < 10);
        for j in 0..i {
            assert!(r[i] != r[j]);
        }
    }
    assert_eq!(select_unique_n_from(5, 3, &mut rng), vec![0, 1, 2]);
}

#[test]
fn smallest_keys_in_order() {
    assert_eq!(smallest_keys(&vec![5, 1, 4, 1, 9], 3), vec![1, 3, 2]);
    assert_eq!(smallest_keys(&vec![2, 0], 5), vec![1, 0]);
}

#[test]
fn unsolving_needs_boxes_in_holes() {
    let level = Level::from_builtin(0).unwrap();
    let mut rng = ChaCha8Rng::seed_from_u64(11);
    assert_eq!(unsolve_level(&level, 10, 100000, &mut rng).len(), 0);
}

#[test]
fn unsolving_keeps_the_walls() {
    let level = Level::from_str("######\n#&  @#\n######\n").unwrap();
    let mut rng = ChaCha8Rng::seed_from_u64(11);
    let levels = unsolve_level(&level, 10, 100000, &mut rng);
    assert!(levels.len() <= 3);
    assert!(levels.len() >= 1);
    for l in levels.iter() {
        assert_eq!(l.w, 4);
        assert_eq!(l.h, 1);
        let mut stripped = Vec::new();
        for i in 0..4 {
            let o = l.get_obj_at_idx(i);
            stripped.push(match o { Obj::Human | Obj::Boxx => Obj::Space, Obj::HumanInHole | Obj::BoxxInHole => Obj::Hole, x => x });
        }
        assert_eq!(stripped, vec![Obj::Space, Obj::Space, Obj::Space, Obj::Hole]);
        assert!(l.contains_key("moves"));
        assert!(l.contains_key("depth"));
        assert!(l.contains_key("path"));
        let moves: usize = l.get_keyval("moves").parse().unwrap();
        assert_eq!(l.get_keyval("path").len(), moves);
        let sol = solve_level(l, moves as u16 + 2, 100000).unwrap();
        assert!((sol.moves as usize) <= moves);
    }
}

#[test]
fn walk_map_lists_every_push() {
    // the human walks round the box and can push it from three sides; the push down would
    // put it against the bottom wall, along which there is no hole
    let level = Level::from_str("#######\n#&   O#\n#  *  #\n#     #\n#######\n").unwrap();
    let cleared = level.clear_human_cloned();
    let map = boxbopper::pathnodemap::PathMap::new_from_level(&cleared);
    let base = cleared.clear_boxxes_cloned();
    let pnm = map.complete_map_solve(&base);
    let mut found = Vec::new();
    for km in pnm.key_moves.iter() {
        found.push((pnm.nodes[km.pni as usize].pt, km.move_dir));
    }
    assert_eq!(pnm.nodes.len(), 14);
    assert_eq!(found.len(), 3);
    assert!(found.contains(&(Vector(2, 2), boxbopper::vector::Move::Up)));
    assert!(found.contains(&(Vector(1, 1), boxbopper::vector::Move::Right)));
    assert!(found.contains(&(Vector(3, 1), boxbopper::vector::Move::Left)));
}

#[test]
fn unsolve_small_level() {
    let base = Level::from_str("######\n# @& #\n######").unwrap();
    let mut rng = ChaCha8Rng::seed_from_u64(0);
    let r = unsolve_level(&base, 5, 4000000, &mut rng);
    assert_eq!(r.len(), 2);
    assert_eq!(r[0].to_string(), "######\n# O*&#\n######\n");
    assert_eq!(r[0].get_keyval("moves"), "1");
    assert_eq!(r[0].get_keyval("depth"), "0");
    assert_eq!(r[0].get_keyval("path"), "L");
    assert_eq!(r[1].to_string(), "######\n# @& #\n######\n");
    assert_eq!(r[1].get_keyval("path"), "");
}

#[test]
fn bound_of_exactly_the_shortest_finds_it() {
    let level = Level::from_builtin(0).unwrap();
    assert!(solve_level(&level, 5, 4000000).is_none());
    let sol = solve_level(&level, 6, 4000000).unwrap();
    assert_eq!(sol.moves, 6);
    assert_eq!(sol.depth, 3);
    assert_eq!(sol.path, "RRRRRR");
}

#[test]
fn shortest_of_two_ways_is_found() {
    // three pushes to the right take the box home; no shorter solution exists, and a
    // larger bound still gives the shortest
    let level = Level::from_str("#######\n#&*  O#\n#     #\n#######\n").unwrap();
    let sol = solve_level(&level, 60, 4000000).unwrap();
    assert_eq!(sol.moves, 3);
    assert_eq!(sol.path, "RRR");
    let bounded = solve_level(&level, 3, 4000000).unwrap();
    assert_eq!(bounded.moves, 3);
    assert!(solve_level(&level, 2, 4000000).is_none());
}

#[test]
fn random_boxes_can_be_pulled() {
    for seed in 0..8u64 {
        let mut rng = ChaCha8Rng::seed_from_u64(seed);
        let (level, _) = random_level_creator(6, 5, 15, 30, &mut rng);
        let bound = std::cmp::max(3, 6 * 5 * 30 / 100);
        assert!(level.get_box_count() as usize <= bound);
        for y in 0..5 {
            for x in 0..6 {
                if level.get_obj_at_pt(&Vector(x, y)) == Obj::BoxxInHole {
                    assert!(is_pullable(&level, &Vector(x, y)));
                }
            }
        }
    }
}

#[test]
fn unsolved_levels_have_one_human() {
    let base = Level::from_str("#######\n#&   @#\n#     #\n#######\n").unwrap();
    let mut rng = ChaCha8Rng::seed_from_u64(5);
    let levels = unsolve_level(&base, 6, 100000, &mut rng);
    assert!(levels.len() >= 1);
    for l in levels.iter() {
        let mut humans = 0;
        for i in 0..(l.w * l.h) as usize {
            let o = l.get_obj_at_idx(i);
            if o == Obj::Human || o == Obj::HumanInHole {
                humans += 1;
                let hp = l.human_position();
                assert_eq!(i as i32, hp.0 + hp.1 * l.w as i32);
            }
        }
        assert_eq!(humans, 1);
        assert_eq!(l.get_box_count(), base.get_box_count());
    }
}
