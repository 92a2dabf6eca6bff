use snake_tiers::arena::Tiers;
use snake_tiers::board::{
    eat_flower, get, get_tier, point_by_dir, push, random_point, Board, HEIGHT, WIDTH,
};
use snake_tiers::game::{dir, fake_flower_distance, min_flower_distance_point, Game, SNAKES};
use snake_tiers::tile::{NodeType, Tier, TierType};

fn pick(y: u16, x: u16) -> u16 {
    y * 80 + x
}

#[test]
fn arena_slots_stay_valid() {
    let mut t = Tiers::new();
    let a = t.push_back(Tier::flower());
    let b = t.push_back(Tier::grass());
    let c = t.push_back(Tier::cry_head());
    assert_eq!((a, b, c), (0, 1, 2));
    t.delete(b);
    let d = t.push_back(Tier::laugh_head());
    assert_eq!(d, 3);
    assert!(matches!(t.get(a), Tier::Flower));
    assert!(t.get(c).is_laugh_head() == false);
    assert!(matches!(t.get(c), Tier::Node { node_type: NodeType::CryHead, .. }));
    assert!(t.get(d).is_laugh_head());
    assert_eq!(t.len(), 3);
    assert_eq!(t.previous(c), Some(a));
    assert_eq!(t.previous(a), None);
    t.set(a, Tier::grass());
    assert!(t.get(a).is_grass());
    assert_eq!(t.len(), 3);
}

#[test]
fn arena_back_is_last_live() {
    let mut t = Tiers::new();
    assert!(t.back().is_none());
    assert_eq!(t.glyph(), ' ');
    let a = t.push_back(Tier::grass());
    let b = t.push_back(Tier::flower());
    assert_eq!(t.back().unwrap().1, b);
    assert_eq!(t.glyph(), '\u{1F339}');
    t.delete(b);
    assert_eq!(t.back().unwrap().1, a);
    assert_eq!(t.glyph(), '\u{1F340}');
    t.delete(a);
    assert!(t.back().is_none());
    assert_eq!(t.len(), 0);
}

#[test]
fn tier_kinds_and_glyphs() {
    assert!(matches!(Tier::body((1, 2, 3)).tier_type(), TierType::Body));
    assert!(matches!(Tier::cry_head().tier_type(), TierType::Head));
    assert!(matches!(Tier::flower().tier_type(), TierType::Flower));
    assert!(Tier::body((0, 0, 0)).is_body());
    assert!(!Tier::grass().is_body());
    assert_eq!(Tier::laugh_head().glyph(), '\u{1F601}');
    assert_eq!(Tier::cry_head().glyph(), '\u{1F62D}');
    assert_eq!(Tier::body((0, 0, 0)).glyph(), '\u{1F338}');
}

#[test]
fn wraparound_at_edges() {
    assert_eq!(point_by_dir((0, 5), (-1, 0)), (HEIGHT - 1, 5));
    assert_eq!(point_by_dir((19, 79), (1, 1)), (0, 0));
    assert_eq!(point_by_dir((3, 0), (0, -1)), (3, WIDTH - 1));
    assert_eq!(point_by_dir((7, 7), (1, -1)), (8, 6));
}

#[test]
fn draws_map_to_cells() {
    assert_eq!(random_point(0), (0, 0));
    assert_eq!(random_point(81), (1, 1));
    assert_eq!(random_point(1599), (19, 79));
}

#[test]
fn distance_is_planar() {
    assert_eq!(fake_flower_distance((0, 0), (19, 79)), 19 * 19 + 79 * 79);
    assert_eq!(fake_flower_distance((4, 6), (5, 3)), 10);
    assert_eq!(dir(0), (-1, -1));
    assert_eq!(dir(7), (1, 1));
}

#[test]
fn tie_goes_to_earlier_direction() {
    // four neighbours at distance 1; (-1, 0) comes first in direction order
    assert_eq!(min_flower_distance_point((5, 5), (5, 5)), (4, 5));
    // (4, 4), (5, 4) and (6, 4) are the neighbours nearest to (5, 3); (5, 4) is nearest of all
    assert_eq!(min_flower_distance_point((5, 3), (5, 5)), (5, 4));
    // distance is measured without wrapping: from row 0 the flower on row 18 is
    // reached through the bottom edge neighbour (19, x)
    assert_eq!(min_flower_distance_point((18, 10), (0, 10)), (19, 10));
}

#[test]
fn eating_over_grass_removes_the_flower_layer() {
    let mut board = Board::new();
    push(&mut board, (3, 3), Tier::grass());
    let slot = push(&mut board, (3, 3), Tier::flower());
    assert_eq!(get(&board, (3, 3)).len(), 2);
    eat_flower(&mut board, (3, 3, slot));
    assert_eq!(get(&board, (3, 3)).len(), 1);
    assert!(get(&board, (3, 3)).back().unwrap().0.is_grass());
}

#[test]
fn eating_elsewhere_turns_flower_to_grass() {
    let mut board = Board::new();
    push(&mut board, (3, 3), Tier::cry_head());
    let slot = push(&mut board, (3, 3), Tier::flower());
    eat_flower(&mut board, (3, 3, slot));
    assert_eq!(get(&board, (3, 3)).len(), 2);
    assert!(get_tier(&board, (3, 3, slot)).is_grass());

    let mut lone = Board::new();
    let s = push(&mut lone, (0, 0), Tier::flower());
    eat_flower(&mut lone, (0, 0, s));
    assert_eq!(get(&lone, (0, 0)).len(), 1);
    assert!(get_tier(&lone, (0, 0, s)).is_grass());
}

fn spread_game(flower: u16) -> Game {
    let heads = vec![pick(5, 5), pick(10, 10), pick(15, 40), pick(2, 70)];
    let dirs = vec![6usize, 0, 3, 4];
    Game::init(&heads, &dirs, flower)
}

#[test]
fn init_places_snakes_and_flower() {
    let g = spread_game(pick(5, 30));
    assert_eq!(g.bingos(), 0);
    assert_eq!(g.lucky_guy(), None);
    let f = g.flower();
    assert_eq!((f.0, f.1), (5, 30));
    let s0 = g.snake(0);
    assert_eq!((s0.head.0, s0.head.1), (5, 5));
    assert_eq!((s0.tail.0, s0.tail.1), (6, 5));
    match get_tier(g.board(), s0.tail) {
        Tier::Node { node_type: NodeType::Body, prev: Some(n) } => assert_eq!(n, s0.head),
        _ => panic!("tail is not a body tile"),
    }
    assert!(matches!(
        get_tier(g.board(), s0.head),
        Tier::Node { node_type: NodeType::CryHead, prev: None }
    ));
    let s1 = g.snake(1);
    assert_eq!((s1.tail.0, s1.tail.1), (9, 9));
    let glyphs = g.draw();
    assert_eq!(glyphs.len(), 1600);
    assert_eq!(glyphs[5 * 80 + 30], '\u{1F339}');
    assert_eq!(glyphs[5 * 80 + 5], '\u{1F62D}');
    assert_eq!(glyphs[6 * 80 + 5], '\u{1F338}');
    assert_eq!(glyphs[0], ' ');
    // four heads, four tails and the flower, nothing else
    assert_eq!(glyphs.iter().filter(|c| **c != ' ').count(), 2 * SNAKES + 1);
    for i in 0..SNAKES {
        let s = g.snake(i);
        assert!(matches!(
            get_tier(g.board(), s.head),
            Tier::Node { node_type: NodeType::CryHead, prev: None }
        ));
    }
}

#[test]
fn tick_without_bingo_keeps_lengths() {
    let mut g = spread_game(pick(5, 30));
    let before: Vec<_> = (0..SNAKES).map(|i| g.snake(i)).collect();
    g.mov(0);
    assert_eq!(g.bingos(), 0);
    for i in 0..SNAKES {
        let s = g.snake(i);
        // two segments: the old head is now the tail, the tail tile was removed
        assert_eq!(s.tail, before[i].head);
        match get_tier(g.board(), s.tail) {
            Tier::Node { node_type: NodeType::Body, prev: Some(n) } => assert_eq!(n, s.head),
            _ => panic!("tail is not a body tile"),
        }
        assert_eq!(get(g.board(), (before[i].tail.0, before[i].tail.1)).len(), 0);
    }
    // snake 0 at (5, 5) steps right towards (5, 30)
    let s0 = g.snake(0);
    assert_eq!((s0.head.0, s0.head.1), (5, 6));
}

#[test]
fn bingo_stops_the_tick() {
    let mut g = spread_game(pick(5, 6));
    let before: Vec<_> = (0..SNAKES).map(|i| g.snake(i)).collect();
    let eaten = g.flower();
    let depth = g.mov(pick(12, 12));
    assert_eq!(depth, 2);
    assert_eq!(g.bingos(), 1);
    assert_eq!(g.lucky_guy(), Some(0));
    let f = g.flower();
    assert_eq!((f.0, f.1), (12, 12));
    let s0 = g.snake(0);
    assert_eq!((s0.head.0, s0.head.1), (5, 6));
    // grew: the tail stays and the old head links to the new one
    assert_eq!(s0.tail, before[0].tail);
    match get_tier(g.board(), before[0].head) {
        Tier::Node { node_type: NodeType::Body, prev: Some(n) } => assert_eq!(n, s0.head),
        _ => panic!("old head is not a body tile"),
    }
    // the eaten flower turned to grass under the new head
    assert_eq!(get(g.board(), (5, 6)).len(), 2);
    assert!(get_tier(g.board(), eaten).is_grass());
    for i in 1..SNAKES {
        let s = g.snake(i);
        assert_eq!(s.head, before[i].head);
        assert_eq!(s.tail, before[i].tail);
        assert!(matches!(
            get_tier(g.board(), s.head),
            Tier::Node { node_type: NodeType::CryHead, prev: None }
        ));
        assert!(get_tier(g.board(), s.tail).is_body());
    }
    // the next tick gives the feeder a happy head
    g.mov(0);
    let s0 = g.snake(0);
    assert!(get_tier(g.board(), s0.head).is_laugh_head());
    assert!(!get_tier(g.board(), g.snake(1).head).is_laugh_head());
}

#[test]
fn head_wraps_from_top_to_bottom_row() {
    let heads = vec![pick(0, 10), pick(10, 10), pick(15, 40), pick(2, 70)];
    let dirs = vec![6usize, 0, 3, 4];
    let mut g = Game::init(&heads, &dirs, pick(19, 10));
    g.mov(0);
    let s0 = g.snake(0);
    assert_eq!((s0.head.0, s0.head.1), (HEIGHT - 1, 10));
    assert_eq!(g.bingos(), 1);
}
