use schulze::render::render_graph;

#[test]
fn render_blanks_zero_cells() {
    let graph = vec![vec![0, 5], vec![12, 0]];
    assert_eq!(render_graph(&graph), "|    05 |\n| 12    |\n\n\n");
}

#[test]
fn render_keeps_wide_numbers() {
    let graph = vec![vec![123]];
    assert_eq!(render_graph(&graph), "| 123 |\n\n\n");
}

#[test]
fn render_empty_matrix() {
    let graph: Vec<Vec<i32>> = Vec::new();
    assert_eq!(render_graph(&graph), "\n\n");
}

#[test]
fn render_pads_single_digits_and_signs() {
    let graph = vec![vec![7, -3], vec![-45, 0]];
    assert_eq!(render_graph(&graph), "| 07 -3 |\n| -45    |\n\n\n");
}
