use aho_corasick::AhoCorasick;
use strex::stream::order_by_start;
use strex::{
    Chain, ChainId, CompileError, StepId, StrexHir, StrexId, StrexSet, StrexSetBuilder, WordId,
    WordJob,
};

fn lit(word: &str) -> StrexHir {
    StrexHir::Literal(word.to_string())
}

fn ids(set: &StrexSet, haystack: &str) -> Vec<usize> {
    set.matches(haystack).iter().map(|x| x.0).collect()
}

fn set_of(builder: StrexSetBuilder) -> StrexSet {
    StrexSet::build(builder).unwrap()
}

#[test]
fn bad_syntax_fails_the_batch() {
    assert_eq!(StrexSet::new(&["foo", "a|", "bar"]).err(), Some(CompileError::ParseError));
    assert_eq!(StrexSet::new(&[""]).err(), Some(CompileError::ParseError));
}

#[test]
fn bare_gap_fails_the_batch() {
    assert_eq!(StrexSet::new(&[".*"]).err(), Some(CompileError::UnconditionalPattern));
    assert_eq!(StrexSet::new(&["(.*)"]).err(), Some(CompileError::UnconditionalPattern));
    assert_eq!(StrexSet::new(&["foo", "(a|.*)"]).err(), Some(CompileError::UnconditionalPattern));
    assert_eq!(StrexSet::new(&[".*foo"]).err(), Some(CompileError::UnconditionalPattern));
}

#[test]
fn first_bad_pattern_decides_the_error() {
    assert_eq!(StrexSet::new(&[".*", "a|"]).err(), Some(CompileError::UnconditionalPattern));
    assert_eq!(StrexSet::new(&["a|", ".*"]).err(), Some(CompileError::ParseError));
}

#[test]
fn empty_literal_is_refused() {
    let mut builder = StrexSetBuilder::new();
    assert_eq!(builder.add_strex(&lit("")), Err(CompileError::EmptyLiteral));
    let tree = StrexHir::Concat(vec![lit("a"), StrexHir::Wild, lit("")]);
    assert_eq!(builder.add_strex(&tree), Err(CompileError::EmptyLiteral));
    assert_eq!(builder.add_strex(&StrexHir::Concat(vec![])), Err(CompileError::UnconditionalPattern));
    assert_eq!(builder.count(), 0);
    assert_eq!(builder.words().len(), 0);
}

#[test]
fn patterns_get_their_index_as_id() {
    let mut builder = StrexSetBuilder::new();
    assert_eq!(builder.add_strex(&lit("a")), Ok(StrexId(0)));
    assert_eq!(builder.add_strex(&StrexHir::Wild), Err(CompileError::UnconditionalPattern));
    assert_eq!(builder.add_strex(&lit("b")), Ok(StrexId(1)));
    assert_eq!(builder.count(), 2);
}

#[test]
fn equal_words_share_one_id() {
    let mut builder = StrexSetBuilder::new();
    assert_eq!(builder.word_id("foo".to_string()), WordId(0));
    assert_eq!(builder.word_id("bar".to_string()), WordId(1));
    assert_eq!(builder.word_id("foo".to_string()), WordId(0));
    assert_eq!(builder.word_id("Foo".to_string()), WordId(2));
    assert_eq!(builder.words(), &vec!["foo", "bar", "Foo"]);
}

#[test]
fn chains_are_numbered_in_the_order_added() {
    let mut builder = StrexSetBuilder::new();
    builder.add_strex(&lit("a")).unwrap();
    let job = WordJob::DoMatch { id: StrexId(0) };
    let first = builder.add_chain(Chain { sub_chains: vec![], final_step: StepId(2), result: job });
    let second = builder.add_chain(Chain { sub_chains: vec![], final_step: StepId(3), result: job });
    assert_eq!(first, ChainId(0));
    assert_eq!(second, ChainId(1));
}

#[test]
fn lowering_makes_one_chain_per_concatenation() {
    let mut builder = StrexSetBuilder::new();
    builder.add_strex(&StrexHir::parse("(sa.*lam|hello).*foo.*sa").unwrap()).unwrap();
    assert_eq!(builder.words(), &vec!["sa", "lam", "hello", "foo"]);
    let (count, chains, word_jobs) = builder.into_parts();
    assert_eq!(count, 1);
    assert_eq!(chains.len(), 2);
    assert_eq!(chains[0].final_step, StepId(3));
    assert_eq!(chains[0].sub_chains, vec![ChainId(1)]);
    assert!(matches!(chains[0].result, WordJob::DoMatch { id: StrexId(0) }));
    assert_eq!(chains[1].final_step, StepId(2));
    assert_eq!(chains[1].sub_chains, Vec::<ChainId>::new());
    assert!(matches!(
        chains[1].result,
        WordJob::StartChain { id: ChainId(0), pre_condition: None }
    ));
    assert_eq!(word_jobs.len(), 4);
    assert!(matches!(
        word_jobs[0][..],
        [
            WordJob::StartChain { id: ChainId(1), pre_condition: None },
            WordJob::StepChain { id: ChainId(0), step: StepId(2) }
        ]
    ));
    assert!(matches!(word_jobs[1][..], [WordJob::StepChain { id: ChainId(1), step: StepId(1) }]));
    assert!(matches!(
        word_jobs[2][..],
        [WordJob::StartChain { id: ChainId(0), pre_condition: None }]
    ));
    assert!(matches!(word_jobs[3][..], [WordJob::StepChain { id: ChainId(0), step: StepId(1) }]));
}

#[test]
fn empty_batch_matches_nothing() {
    let set = StrexSet::new(&[]).unwrap();
    assert_eq!(set.len(), 0);
    assert_eq!(ids(&set, "anything"), Vec::<usize>::new());
}

#[test]
fn empty_alternation_never_matches() {
    let mut builder = StrexSetBuilder::new();
    builder.add_strex(&StrexHir::Or(vec![])).unwrap();
    builder.add_strex(&lit("a")).unwrap();
    let set = set_of(builder);
    assert_eq!(ids(&set, "a"), [1]);
}

#[test]
fn hits_are_ordered_by_start_and_keep_their_order_within_one() {
    let hits = vec![(7, 2), (1, 0), (5, 1), (2, 0), (9, 3), (3, 1)];
    let first_two = vec![
        (1, false),
        (2, false),
        (1, true),
        (2, true),
        (5, false),
        (3, false),
        (5, true),
        (3, true),
    ];
    let mut all = first_two.clone();
    all.extend([(7, false), (7, true), (9, false), (9, true)]);
    assert_eq!(order_by_start(&hits, 4), all);
    assert_eq!(order_by_start(&hits, 2), first_two);
    assert_eq!(order_by_start(&hits, 0), Vec::<(usize, bool)>::new());
    assert_eq!(order_by_start(&vec![], 3), Vec::<(usize, bool)>::new());
}

#[test]
fn scan_of_a_given_word_stream() {
    let set = StrexSet::new(&["a.*b", "b", "c.*a"]).unwrap();
    // the words are numbered a = 0, b = 1, c = 2
    // an entry with `true` runs the jobs of the word that start a chain, one with `false` the others
    assert_eq!(set.matches_of(&vec![(0, true), (1, false)]), vec![StrexId(0), StrexId(1)]);
    assert_eq!(set.matches_of(&vec![(1, false), (0, true)]), vec![StrexId(1)]);
    assert_eq!(set.matches_of(&vec![(2, true), (2, true), (0, false)]), vec![StrexId(2)]);
    assert_eq!(set.matches_of(&vec![(0, false), (1, true)]), Vec::<StrexId>::new());
    assert_eq!(set.matches_of(&vec![(0, true), (17, false), (2, true)]), Vec::<StrexId>::new());
    assert_eq!(set.matches_of(&vec![]), Vec::<StrexId>::new());
}

#[test]
fn start_job_with_pre_condition_waits_for_its_parent() {
    let mut builder = StrexSetBuilder::new();
    builder.add_strex(&lit("never")).unwrap();
    let done = WordJob::DoMatch { id: StrexId(0) };
    let parent = builder.add_chain(Chain { sub_chains: vec![], final_step: StepId(3), result: done });
    let child = builder.add_chain(Chain { sub_chains: vec![], final_step: StepId(2), result: done });
    let set = set_of(builder);
    let gated = WordJob::StartChain { id: child, pre_condition: Some((parent, StepId(2))) };
    let finish = WordJob::StepChain { id: child, step: StepId(1) };

    let mut scan = set.new_state();
    scan.do_word_job(gated);
    scan.do_word_job(finish);
    assert_eq!(scan.reported(), Vec::<StrexId>::new());

    let mut scan = set.new_state();
    scan.do_word_job(WordJob::StartChain { id: parent, pre_condition: None });
    scan.do_word_job(gated);
    scan.do_word_job(finish);
    assert_eq!(scan.reported(), Vec::<StrexId>::new());

    let mut scan = set.new_state();
    scan.do_word_job(WordJob::StartChain { id: parent, pre_condition: None });
    scan.do_word_job(WordJob::StepChain { id: parent, step: StepId(1) });
    scan.do_word_job(gated);
    scan.do_word_job(finish);
    assert_eq!(scan.reported(), vec![StrexId(0)]);
}

#[test]
fn completing_a_chain_kills_its_sub_chains() {
    // chain 0 is the whole pattern, chain 1 is `(a.*b|c).*d`, chain 2 is `a.*b`
    let set = StrexSet::new(&["((a.*b|c).*d|e).*f.*g"]).unwrap();
    // `a` starts chain 2; `c d` completes chain 1, which starts chain 0 and kills chain 2.
    // So the later `b` completes nothing, the later `d` finds chain 1 dead, and chain 0,
    // moved on by `f`, is not put back to step 1 before `g` completes it.
    assert_eq!(ids(&set, "a c d f b d g"), [0]);
    // where chain 2 was started again after it was killed, it does put chain 0 back
    assert_eq!(ids(&set, "c d f a b d g"), Vec::<usize>::new());
}

fn shareable<T: Send + Sync>(_: &T) {}

#[test]
fn set_can_be_shared_between_threads() {
    let set = StrexSet::new(&["a.*b"]).unwrap();
    shareable(&set);
    assert_eq!(set.len(), 1);
}

#[test]
fn default_builder_holds_nothing() {
    let builder = StrexSetBuilder::default();
    assert_eq!(builder.count(), 0);
    assert_eq!(builder.words().len(), 0);
    let (count, chains, word_jobs) = builder.into_parts();
    assert_eq!((count, chains.len(), word_jobs.len()), (0, 0, 0));
}

#[test]
fn pattern_matches_alike_alone_and_among_others() {
    let sources = ["x.*y", "(a.*b|c).*d", "d", "a.*a", "(a.*b|c).*d"];
    let all = StrexSet::new(&sources).unwrap();
    for haystack in ["", "a b d", "c d", "d c", "a a", "x c y d a", "a b c d x y"] {
        let together = ids(&all, haystack);
        for (k, source) in sources.iter().enumerate() {
            let alone = StrexSet::new(&[*source]).unwrap();
            assert_eq!(together.contains(&k), ids(&alone, haystack) == [0]);
        }
    }
}

#[test]
fn lowering_into_a_fresh_builder_attaches_one_job_for_each_part() {
    let mut builder = StrexSetBuilder::default();
    let strex = StrexHir::Concat(vec![
        lit("a"),
        StrexHir::Wild,
        lit("b"),
        StrexHir::Wild,
        lit("c"),
    ]);
    builder.add_strex_base(&strex, WordJob::DoMatch { id: StrexId(0) });
    assert_eq!(builder.words(), &vec!["a", "b", "c"]);
    let (count, chains, word_jobs) = builder.into_parts();
    assert_eq!(count, 0);
    assert_eq!(chains.len(), 1);
    assert_eq!(chains[0].final_step, StepId(3));
    assert!(matches!(chains[0].result, WordJob::DoMatch { id: StrexId(0) }));
    assert_eq!(word_jobs.len(), 3);
    assert!(matches!(
        word_jobs[0][..],
        [WordJob::StartChain { id: ChainId(0), pre_condition: None }]
    ));
    assert!(matches!(word_jobs[1][..], [WordJob::StepChain { id: ChainId(0), step: StepId(1) }]));
    assert!(matches!(word_jobs[2][..], [WordJob::StepChain { id: ChainId(0), step: StepId(2) }]));
}

#[test]
fn lowering_into_a_fresh_builder_records_the_nested_chain() {
    let mut builder = StrexSetBuilder::default();
    let strex = StrexHir::parse("(sa.*lam|hello).*foo").unwrap();
    builder.add_strex_base(&strex, WordJob::DoMatch { id: StrexId(0) });
    assert_eq!(builder.words(), &vec!["sa", "lam", "hello", "foo"]);
    let (_, chains, _) = builder.into_parts();
    assert_eq!(chains.len(), 2);
    assert!(matches!(chains[0].result, WordJob::DoMatch { id: StrexId(0) }));
    assert!(matches!(
        chains[1].result,
        WordJob::StartChain { id: ChainId(0), pre_condition: None }
    ));
    assert!(chains[0].sub_chains.contains(&ChainId(1)));
}

#[test]
fn set_is_made_of_a_builder_and_its_automaton() {
    let mut builder = StrexSetBuilder::new();
    builder.add_strex(&StrexHir::parse("foo.*bar").unwrap()).unwrap();
    builder.add_strex(&lit("bar")).unwrap();
    let automaton = AhoCorasick::new(builder.words());
    let set = StrexSet::from_builder(builder, automaton).unwrap();
    assert_eq!(set.len(), 2);
    assert_eq!(ids(&set, "foo bar"), [0, 1]);
    assert_eq!(ids(&set, "bar foo"), [1]);
}
