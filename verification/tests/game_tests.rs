use isostack::block::Block;
use isostack::color::Color;
use isostack::display::Display;
use isostack::game::GameState;
use isostack::game::check_streak;
use isostack::game::osc_position;
use isostack::game::trim_axis;
use isostack::renderer::Background;
use isostack::renderer::Renderer;

fn black() -> Color {
    Color::rgb(0, 0, 0)
}

fn renderers() -> (Renderer, Renderer) {
    let bottom = Renderer::new(Display::new(480, 272, black()), Background::Solid(black()));
    let top = Renderer::new(
        Display::new(480, 272, black()),
        Background::Solid(Color::rgba(0, 0, 0, 0)),
    );
    (bottom, top)
}

fn stacked_block(index: i32, height: i32) -> Block {
    Block::new(-50, -60 - 15 * index, -50, 100, height, 100, 0)
}

#[test]
fn oscillation_hits_both_extremes() {
    // at the start of the period the eased progress is exactly 0
    assert_eq!(osc_position(0, 100, 100, -50, 100), -200);
    // at the triangle peak it is exactly 1: the mirror-image position
    assert_eq!(osc_position(1750, 100, 100, -50, 100), 100);
    // one full period later the position repeats
    assert_eq!(osc_position(3500, 100, 100, -50, 100), -200);
    assert_eq!(osc_position(3500 + 1750, 100, 100, -50, 100), 100);
}

#[test]
fn oscillation_is_symmetric_around_the_peak() {
    for t in [1u64, 400, 875, 1300, 1749] {
        assert_eq!(
            osc_position(t, 100, 100, -50, 100),
            osc_position(3500 - t, 100, 100, -50, 100),
        );
    }
}

#[test]
fn trim_clips_each_side() {
    // overhang to the right: length shrinks, start stays
    assert_eq!(trim_axis(40, 100, 0, 100), (40, 60));
    // overhang to the left: start clamps, length shrinks
    assert_eq!(trim_axis(-30, 100, 0, 100), (0, 70));
    // inside: untouched
    assert_eq!(trim_axis(10, 50, 0, 100), (10, 50));
    // no overlap at all: length goes negative
    assert_eq!(trim_axis(200, 100, 0, 100), (200, -100));
}

#[test]
fn streak_needs_five_identical_blocks() {
    let mut blocks = Vec::new();
    for i in 0..5 {
        blocks.push(stacked_block(i, if i == 0 { 60 } else { 15 }));
    }
    assert!(check_streak(&blocks));
    let mut four = Vec::new();
    for i in 0..4 {
        four.push(stacked_block(i, 15));
    }
    assert!(!check_streak(&four));
    let mut broken = Vec::new();
    for i in 0..5 {
        broken.push(stacked_block(i, 15));
    }
    broken[2] = Block::new(-48, -90, -50, 100, 15, 100, 0);
    assert!(!check_streak(&broken));
}

#[test]
fn new_round_layout() {
    let g = GameState::new(480, 272, 1234, 7);
    assert_eq!(g.score, 0);
    assert_eq!(g.highscore, 7);
    assert_eq!(g.base_x, 240);
    assert_eq!(g.base_y, 272);
    assert_eq!(g.blocks.len(), 1);
    assert_eq!(g.blocks[0].width, 100);
    assert_eq!(g.blocks[0].height, 60);
    assert_eq!(g.current.y, -75);
    assert_eq!(g.current.height, 15);
    assert_eq!(g.hue, (1234 % 360) as i32);
    assert!(g.can_step());
}

#[test]
fn tap_trims_overhang_and_commits() {
    // starting footprint 100 by 100; at 1030 ms the falling block sits at
    // x == -10, an offset of +40 over the support at -50 with tolerance 3
    let (mut bottom, mut top) = renderers();
    let mut g = GameState::new(480, 272, 0, 0);
    let r = g.step(&mut bottom, &mut top, 1030, true);
    assert!(!r.game_over);
    assert!(r.committed);
    assert!(r.redraw_score);
    assert_eq!(g.score, 1);
    assert_eq!(g.highscore, 1);
    assert_eq!(g.blocks.len(), 2);
    let committed = g.blocks[1];
    assert_eq!(committed.x, -10);
    assert_eq!(committed.width, 60);
    assert_eq!(committed.depth, 100);
    // the next falling block spawns above with the committed footprint
    assert_eq!(g.current.width, 60);
    assert_eq!(g.current.depth, 100);
    assert_eq!(g.current.y, -90);
}

#[test]
fn sustained_touch_commits_only_once() {
    let (mut bottom, mut top) = renderers();
    let mut g = GameState::new(480, 272, 0, 0);
    let first = g.step(&mut bottom, &mut top, 1030, true);
    assert!(first.committed);
    // still touching: no rising edge, no second commit
    let second = g.step(&mut bottom, &mut top, 1040, true);
    assert!(!second.committed);
    assert_eq!(g.score, 1);
}

#[test]
fn game_over_discards_the_block() {
    let (mut bottom, mut top) = renderers();
    let mut g = GameState::new(480, 272, 0, 0);
    // with an even score only x oscillates, so a fatal z overhang survives
    // the oscillation: depth trims to 100 - 120 < 4
    g.current.z = 70;
    let r = g.step(&mut bottom, &mut top, 1030, true);
    assert!(r.game_over);
    assert!(!r.committed);
    assert!(g.over);
    assert_eq!(g.score, 0);
    assert_eq!(g.blocks.len(), 1);
}

#[test]
fn perfect_streak_grants_the_bonus() {
    let (mut bottom, mut top) = renderers();
    let mut g = GameState::new(480, 272, 0, 0);
    // five identical committed footprints below a matching falling block
    g.blocks.clear();
    for i in 0..5 {
        g.blocks.push(stacked_block(i, if i == 0 { 60 } else { 15 }));
    }
    g.score = 4;
    g.current = Block::new(-50, -135, -50, 100, 15, 100, 0);
    // at 860 ms the oscillation puts x at -52: within the fit tolerance
    let r = g.step(&mut bottom, &mut top, 860, true);
    assert!(r.committed);
    let committed = g.blocks[5];
    assert_eq!(committed.x, -54);
    assert_eq!(committed.z, -54);
    assert_eq!(committed.width, 108);
    assert_eq!(committed.depth, 108);
    assert_eq!(g.score, 5);
}

#[test]
fn near_fit_without_streak_only_snaps() {
    let (mut bottom, mut top) = renderers();
    let mut g = GameState::new(480, 272, 0, 0);
    // only one committed block: no streak is possible
    let r = g.step(&mut bottom, &mut top, 860, true);
    assert!(r.committed);
    let committed = g.blocks[1];
    assert_eq!(committed.x, -50);
    assert_eq!(committed.z, -50);
    assert_eq!(committed.width, 100);
    assert_eq!(committed.depth, 100);
    // the committed block was painted solid: the top of its left face sits
    // at its projected corner (140, 197), one row down, shaded with the
    // advanced hue of 10 degrees
    assert_eq!(bottom.pixel_at(140, 198), Color::rgb(255, 148, 127));
}

#[test]
fn one_mismatch_suppresses_the_bonus() {
    let (mut bottom, mut top) = renderers();
    let mut g = GameState::new(480, 272, 0, 0);
    g.blocks.clear();
    for i in 0..5 {
        g.blocks.push(stacked_block(i, if i == 0 { 60 } else { 15 }));
    }
    // one block in the run is offset: the streak is broken
    g.blocks[2] = Block::new(-46, -90, -50, 96, 15, 100, 0);
    g.score = 4;
    g.current = Block::new(-50, -135, -50, 100, 15, 100, 0);
    let r = g.step(&mut bottom, &mut top, 860, true);
    assert!(r.committed);
    let committed = g.blocks[5];
    // snapped to the support, but no bonus
    assert_eq!(committed.x, -50);
    assert_eq!(committed.z, -50);
    assert_eq!(committed.width, 100);
    assert_eq!(committed.depth, 100);
}

#[test]
fn camera_scrolls_when_the_stack_grows_tall() {
    let (mut bottom, mut top) = renderers();
    let mut g = GameState::new(480, 272, 0, 0);
    // raise the stack artificially so the next commit crosses the trigger
    g.blocks.clear();
    for i in 0..16 {
        g.blocks.push(stacked_block(i, if i == 0 { 60 } else { 15 }));
    }
    g.score = 15;
    g.current = Block::new(-50, -60 - 15 * 16, -50, 100, 15, 100, 0);
    // base_y + current.y == 272 - 300 < 272 / 3
    let r = g.step(&mut bottom, &mut top, 860, true);
    assert!(r.committed);
    assert_eq!(g.base_y, 272 + 272 / 3);
}

#[test]
fn no_tap_means_no_state_change_but_movement() {
    let (mut bottom, mut top) = renderers();
    let mut g = GameState::new(480, 272, 0, 0);
    let r = g.step(&mut bottom, &mut top, 1030, false);
    assert!(!r.committed);
    assert!(!r.game_over);
    assert_eq!(g.score, 0);
    assert_eq!(g.blocks.len(), 1);
    assert_eq!(g.current.x, -10);
    assert_eq!(g.current.z, -50);
    // the falling block's wireframe frame was composed onto the overlay:
    // its front-left vertical edge projects to x = 240 - 10 - 50 = 180,
    // y = 272 - 75 - 5 + 25 = 217
    assert_eq!(top.pixel_at(180, 220), Color::rgb(255, 255, 255));
}

#[test]
fn draw_start_paints_the_base_block() {
    let (mut bottom, _top) = renderers();
    let g = GameState::new(480, 272, 0, 0);
    g.draw_start(&mut bottom);
    // the base block's left face starts at its projected corner
    // proj_x = 240 - 50 - 50 = 140, proj_y = 272 - 60 - 25 + 25 = 212
    let probe = bottom.pixel_at(140, 214);
    assert_ne!(probe, black());
}
