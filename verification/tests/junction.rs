use mullion::border::LineWeight;
use mullion::geometry::Rect;
use mullion::junction::{resolve, EdgeCell, EdgeGrid};

use LineWeight::{Double, Heavy, Light};

fn cell(up: Option<LineWeight>, down: Option<LineWeight>, left: Option<LineWeight>, right: Option<LineWeight>) -> EdgeCell {
    EdgeCell { up, down, left, right }
}

const L: Option<LineWeight> = Some(Light);
const H: Option<LineWeight> = Some(Heavy);
const D: Option<LineWeight> = Some(Double);
const N: Option<LineWeight> = None;

#[test]
fn exhaustive_256_combinations() {
    let arms = [None, Some(Light), Some(Heavy), Some(Double)];
    for &up in &arms {
        for &down in &arms {
            for &left in &arms {
                for &right in &arms {
                    let c = EdgeCell { up, down, left, right };
                    let result = resolve(&c);
                    if up.is_none() && down.is_none() && left.is_none() && right.is_none() {
                        assert_eq!(result, None, "all-absent must be None");
                    } else {
                        assert!(result.is_some(), "expected Some for {c:?}");
                    }
                }
            }
        }
    }
}

#[test]
fn pure_light_glyphs() {
    // Stubs
    assert_eq!(resolve(&cell(N,N,N,L)), Some('╶'));
    assert_eq!(resolve(&cell(N,N,L,N)), Some('╴'));
    assert_eq!(resolve(&cell(N,L,N,N)), Some('╷'));
    assert_eq!(resolve(&cell(L,N,N,N)), Some('╵'));
    // Lines
    assert_eq!(resolve(&cell(N,N,L,L)), Some('─'));
    assert_eq!(resolve(&cell(L,L,N,N)), Some('│'));
    // Corners
    assert_eq!(resolve(&cell(N,L,N,L)), Some('┌'));
    assert_eq!(resolve(&cell(N,L,L,N)), Some('┐'));
    assert_eq!(resolve(&cell(L,N,N,L)), Some('└'));
    assert_eq!(resolve(&cell(L,N,L,N)), Some('┘'));
    // Tees
    assert_eq!(resolve(&cell(N,L,L,L)), Some('┬'));
    assert_eq!(resolve(&cell(L,N,L,L)), Some('┴'));
    assert_eq!(resolve(&cell(L,L,N,L)), Some('├'));
    assert_eq!(resolve(&cell(L,L,L,N)), Some('┤'));
    // Cross
    assert_eq!(resolve(&cell(L,L,L,L)), Some('┼'));
}

#[test]
fn pure_heavy_glyphs() {
    // Stubs
    assert_eq!(resolve(&cell(N,N,N,H)), Some('╺'));
    assert_eq!(resolve(&cell(N,N,H,N)), Some('╸'));
    assert_eq!(resolve(&cell(N,H,N,N)), Some('╻'));
    assert_eq!(resolve(&cell(H,N,N,N)), Some('╹'));
    // Lines
    assert_eq!(resolve(&cell(N,N,H,H)), Some('━'));
    assert_eq!(resolve(&cell(H,H,N,N)), Some('┃'));
    // Corners
    assert_eq!(resolve(&cell(N,H,N,H)), Some('┏'));
    assert_eq!(resolve(&cell(N,H,H,N)), Some('┓'));
    assert_eq!(resolve(&cell(H,N,N,H)), Some('┗'));
    assert_eq!(resolve(&cell(H,N,H,N)), Some('┛'));
    // Tees
    assert_eq!(resolve(&cell(N,H,H,H)), Some('┳'));
    assert_eq!(resolve(&cell(H,N,H,H)), Some('┻'));
    assert_eq!(resolve(&cell(H,H,N,H)), Some('┣'));
    assert_eq!(resolve(&cell(H,H,H,N)), Some('┫'));
    // Cross
    assert_eq!(resolve(&cell(H,H,H,H)), Some('╋'));
}

#[test]
fn pure_double_glyphs() {
    assert_eq!(resolve(&cell(N,N,D,D)), Some('═'));
    assert_eq!(resolve(&cell(D,D,N,N)), Some('║'));
    assert_eq!(resolve(&cell(N,D,N,D)), Some('╔'));
    assert_eq!(resolve(&cell(N,D,D,N)), Some('╗'));
    assert_eq!(resolve(&cell(D,N,N,D)), Some('╚'));
    assert_eq!(resolve(&cell(D,N,D,N)), Some('╝'));
    assert_eq!(resolve(&cell(N,D,D,D)), Some('╦'));
    assert_eq!(resolve(&cell(D,N,D,D)), Some('╩'));
    assert_eq!(resolve(&cell(D,D,N,D)), Some('╠'));
    assert_eq!(resolve(&cell(D,D,D,N)), Some('╣'));
    assert_eq!(resolve(&cell(D,D,D,D)), Some('╬'));
}

#[test]
fn mixed_light_heavy_corner_tee_cross() {
    // Corner: down=Light + right=Heavy → ┍
    assert_eq!(resolve(&cell(N,L,N,H)), Some('┍'));
    // Tee: down=Light + left=Heavy + right=Heavy → ┯
    assert_eq!(resolve(&cell(N,L,H,H)), Some('┯'));
    // Cross: up=Light + down=Light + left=Heavy + right=Heavy → ┿
    assert_eq!(resolve(&cell(L,L,H,H)), Some('┿'));
}

#[test]
fn double_mixing_demotes_to_heavy() {
    // Lone Double stub: single arm Double → demotes to Heavy stub
    assert_eq!(resolve(&cell(N,N,N,D)), Some('╺'));
    // Double up + Light right → demote Double→Heavy → (up=H, right=L) = ┖
    assert_eq!(resolve(&cell(D,N,N,L)), Some('┖'));
}

#[test]
fn merge_stronger_weight_wins() {
    let mut grid = EdgeGrid::new(Rect::new(0, 0, 5, 5));
    grid.add_h_line(1, 3, 2, Light);
    grid.add_h_line(1, 3, 2, Heavy); // heavy should win
    let c = grid.get(2, 2).unwrap();
    assert_eq!(c.left, Some(Heavy));
    assert_eq!(c.right, Some(Heavy));
    assert_eq!(resolve(c), Some('━'));
}
