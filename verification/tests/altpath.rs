use fandango_targets::altpath::{AltPathUpdate, AltPathVisit, AltPathVisitor, AltPaths, GrammarNode};
use std::ops::ControlFlow;

fn graph() -> (Vec<usize>, Vec<(usize, Vec<usize>)>) {
    let alt = vec![0, 2, 2];
    let edges = vec![(0, vec![9]), (1, vec![3]), (2, vec![4, 0]), (3, vec![]), (0, vec![1, 2])];
    (alt, edges)
}

fn sorted_paths(paths: &AltPaths) -> Vec<Vec<usize>> {
    let mut found: Vec<Vec<usize>> = paths.lookup().into_iter().map(|(p, _)| p).collect();
    found.sort();
    found
}

fn count(paths: &AltPaths, path: &[usize]) -> Option<usize> {
    paths.lookup().into_iter().find(|(p, _)| p.as_slice() == path).map(|(_, c)| c)
}

#[test]
fn alt_paths_with_one_alternation() {
    let (alt, edges) = graph();
    let paths = AltPaths::from_edges(1, &alt, &edges);
    assert_eq!(paths.k(), 1);
    assert_eq!(paths.alt_paths(), (4, 4));
    assert_eq!(
        sorted_paths(&paths),
        vec![vec![0, 1], vec![0, 2], vec![2, 0], vec![2, 4]]
    );
    let mut alternations = paths.alternations();
    alternations.sort();
    assert_eq!(alternations, vec![0, 2]);
}

#[test]
fn alt_paths_with_two_alternations() {
    let (alt, edges) = graph();
    let paths = AltPaths::from_edges(2, &alt, &edges);
    assert_eq!(
        sorted_paths(&paths),
        vec![
            vec![0, 1],
            vec![0, 2],
            vec![0, 2, 0],
            vec![0, 2, 4],
            vec![2, 0],
            vec![2, 0, 1],
            vec![2, 0, 2],
            vec![2, 4],
        ]
    );
}

fn walk_0_2_4<const INSERT: bool>(update: &mut AltPathUpdate<'_, INSERT>) {
    update.enter(0);
    update.enter(2);
    update.enter(4);
    update.leave();
    update.leave();
    update.leave();
}

#[test]
fn inserting_then_removing_a_walk_restores_counts() {
    let (alt, edges) = graph();
    let mut paths = AltPaths::from_edges(1, &alt, &edges);
    {
        let mut update = AltPathUpdate::inserting(&mut paths);
        walk_0_2_4(&mut update);
        assert_eq!(update.altpaths().alt_paths(), (2, 4));
    }
    assert_eq!(count(&paths, &[0, 2]), Some(1));
    assert_eq!(count(&paths, &[2, 4]), Some(1));
    assert_eq!(count(&paths, &[0, 1]), Some(0));
    assert_eq!(count(&paths, &[0, 1, 3]), None);
    {
        let mut update = AltPathUpdate::removing(&mut paths);
        walk_0_2_4(&mut update);
    }
    assert_eq!(paths.alt_paths(), (4, 4));
}

#[test]
fn clearing_forgets_every_count() {
    let (alt, edges) = graph();
    let mut paths = AltPaths::from_edges(1, &alt, &edges);
    {
        let mut update = AltPathUpdate::inserting(&mut paths);
        walk_0_2_4(&mut update);
        walk_0_2_4(&mut update);
    }
    assert_eq!(count(&paths, &[2, 4]), Some(2));
    paths.clear();
    assert_eq!(paths.alt_paths(), (4, 4));
    assert_eq!(count(&paths, &[2, 4]), Some(0));
}

struct Collect(Vec<(usize, Vec<usize>)>);

impl AltPathVisitor for Collect {
    type Value = Vec<(usize, Vec<usize>)>;
    type Break = ();
    type Error = ();

    fn visit_path(&mut self, count: usize, path: &[usize]) -> Result<ControlFlow<()>, ()> {
        self.0.push((count, path.to_vec()));
        Ok(ControlFlow::Continue(()))
    }

    fn value(self) -> Self::Value {
        self.0
    }
}

#[test]
fn visiting_hands_out_seen_paths() {
    let (alt, edges) = graph();
    let mut paths = AltPaths::from_edges(2, &alt, &edges);
    {
        let mut update = AltPathUpdate::inserting(&mut paths);
        update.enter(2);
        update.enter(0);
    }
    let mut visit = AltPathVisit::new(&paths, Collect(Vec::new()));
    assert_eq!(visit.enter(0), Ok(ControlFlow::Continue(())));
    assert_eq!(visit.enter(2), Ok(ControlFlow::Continue(())));
    assert_eq!(visit.enter(0), Ok(ControlFlow::Continue(())));
    visit.leave();
    let mut seen = visit.value();
    seen.sort();
    assert_eq!(
        seen,
        vec![(0, vec![0, 2]), (0, vec![0, 2, 0]), (1, vec![2, 0])]
    );
}

#[test]
fn long_acyclic_chain_is_not_cut() {
    let alt = vec![0, 65];
    let edges: Vec<(usize, Vec<usize>)> = (0..=65).map(|i| (i, vec![i + 1])).collect();
    let paths = AltPaths::from_edges(2, &alt, &edges);
    let full: Vec<usize> = (0..=66).collect();
    assert_eq!(sorted_paths(&paths), {
        let mut expected = vec![vec![0, 1], vec![65, 66], full];
        expected.sort();
        expected
    });
}

#[test]
fn long_cycle_without_choice_is_cut() {
    // 0 is an alternation into a cycle 1 -> 2 -> ... -> 70 -> 1 with no
    // choice point on it: only the first step is an alt-path.
    let alt = vec![0];
    let mut edges: Vec<(usize, Vec<usize>)> = vec![(0, vec![1])];
    for i in 1..70 {
        edges.push((i, vec![i + 1]));
    }
    edges.push((70, vec![1]));
    let paths = AltPaths::from_edges(1, &alt, &edges);
    assert_eq!(sorted_paths(&paths), vec![vec![0, 1]]);
}

fn node(discriminant: usize, alternative: bool, children: Vec<usize>) -> GrammarNode {
    GrammarNode { discriminant, alternative, children }
}

#[test]
fn grammar_alt_paths_start_at_every_reachable_alternative() {
    let nodes = vec![
        node(10, false, vec![1]),
        node(11, true, vec![2, 3]),
        node(12, false, vec![4]),
        node(13, false, vec![]),
        node(14, true, vec![3]),
        node(15, true, vec![1]),
    ];
    let paths = AltPaths::from_grammar(1, &nodes, 0);
    let mut alternations = paths.alternations();
    alternations.sort();
    assert_eq!(alternations, vec![11, 14]);
    assert_eq!(
        sorted_paths(&paths),
        vec![vec![11, 12], vec![11, 13], vec![14, 13]]
    );
    assert_eq!(paths.alt_paths(), (3, 3));
}

struct StopAtFirst(Vec<(usize, Vec<usize>)>);

impl AltPathVisitor for StopAtFirst {
    type Value = Vec<(usize, Vec<usize>)>;
    type Break = usize;
    type Error = ();

    fn visit_path(&mut self, count: usize, path: &[usize]) -> Result<ControlFlow<usize>, ()> {
        self.0.push((count, path.to_vec()));
        Ok(ControlFlow::Break(path.len()))
    }

    fn value(self) -> Self::Value {
        self.0
    }
}

#[test]
fn visiting_stops_at_the_first_break() {
    let (alt, edges) = graph();
    let paths = AltPaths::from_edges(2, &alt, &edges);
    let mut visit = AltPathVisit::new(&paths, StopAtFirst(Vec::new()));
    assert_eq!(visit.enter(2), Ok(ControlFlow::Continue(())));
    assert_eq!(visit.enter(0), Ok(ControlFlow::Break(2)));
    assert_eq!(visit.value(), vec![(0, vec![2, 0])]);
}
