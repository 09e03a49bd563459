use dcconway::grid::Grid;
use dcconway::position::GridPosition;
use dcconway::renderer::{BufferedTextRenderer, Renderer, TextRenderer};
use dcconway::rules::{BasicRuleSet, Ticker};

fn single(x: i64, y: i64) -> Grid {
    Grid::new(vec![GridPosition::new(x, y)])
}

#[test]
fn line_builds_a_centred_row() {
    let g = dcconway::grid::line(2);
    let mut alive: Vec<(i64, i64)> = g.alive_positions_iter().iter().map(|p| (p.0, p.1)).collect();
    alive.sort();
    assert_eq!(alive, vec![(-2, 0), (-1, 0), (0, 0), (1, 0), (2, 0)]);
    let zero = dcconway::grid::line(0);
    assert_eq!(zero.alive_positions_iter().len(), 1);
    assert!(zero.is_live(GridPosition::new(0, 0)));
}

#[test]
fn text_renderer_draws_one_frame() {
    let mut r = TextRenderer::square(1);
    let out = r.render(&single(0, 0));
    assert_eq!(out, vec!["---".to_string(), "-#-".to_string(), "---".to_string(), String::new()]);
    let out = r.render(&single(1, -1));
    assert_eq!(out, vec!["--#".to_string(), "---".to_string(), "---".to_string(), String::new()]);
}

#[test]
fn buffered_renderer_collects_frames_until_threshold() {
    let mut r = BufferedTextRenderer::square(1, Some(7));
    let first = r.render(&single(0, 0));
    assert!(first.is_empty());
    let second = r.render(&single(-1, 1));
    assert_eq!(
        second,
        vec!["---\t---".to_string(), "-#-\t---".to_string(), "---\t#--".to_string(), String::new()]
    );
    assert!(r.flush().is_empty());
}

#[test]
fn buffered_renderer_flush_hands_out_pending_frames() {
    let mut r = BufferedTextRenderer::square(1, None);
    assert!(r.flush().is_empty());
    assert!(r.render(&single(0, 0)).is_empty());
    assert!(r.render(&Grid::empty()).is_empty());
    let out = r.flush();
    assert_eq!(out, vec!["---\t---".to_string(), "-#-\t---".to_string(), "---\t---".to_string(), String::new()]);
    assert!(r.flush().is_empty());
}

#[test]
fn buffered_renderer_keeps_a_first_frame_over_threshold() {
    let mut r = BufferedTextRenderer::square(1, Some(2));
    assert!(r.render(&single(0, 0)).is_empty());
    assert!(r.flush().is_empty());
}

#[test]
fn buffered_renderer_custom_window() {
    let mut r = BufferedTextRenderer::new(5, 2, -3, 0, None);
    assert!(r.render(&single(6, -3)).is_empty());
    assert_eq!(r.flush(), vec!["-#-".to_string(), String::new()]);
}

#[test]
fn blinker_frames_alternate() {
    let mut r = TextRenderer::square(1);
    let g = dcconway::grid::line(1);
    assert_eq!(r.render(&g)[1], "###");
    let g = BasicRuleSet::tick(&g);
    let out = r.render(&g);
    assert_eq!(out[0], "-#-");
    assert_eq!(out[1], "-#-");
    assert_eq!(out[2], "-#-");
}
