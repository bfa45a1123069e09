use std::collections::{HashMap, HashSet};
use strex::{Chain, StrexHir, StrexSet, StrexSetBuilder, WordJob};

/// A scan written out naively: at each offset every piece of the haystack that starts
/// there, the shorter first, runs the jobs of the word that it is, the job attached last
/// first: in a first round the jobs that do not start a chain, in a second those that do.
struct Model {
    words: Vec<String>,
    chains: Vec<Chain>,
    word_jobs: Vec<Vec<WordJob>>,
}

impl Model {
    fn new(sources: &[&str]) -> Model {
        let mut builder = StrexSetBuilder::new();
        for source in sources {
            builder.add_strex(&StrexHir::parse(source).unwrap()).unwrap();
        }
        let words = builder.words().clone();
        let (_, chains, word_jobs) = builder.into_parts();
        Model { words, chains, word_jobs }
    }

    fn kill(&self, states: &mut HashMap<usize, usize>, chain: usize) {
        if states.remove(&chain).is_some() {
            for sub in &self.chains[chain].sub_chains {
                self.kill(states, sub.0);
            }
        }
    }

    fn enter(
        &self,
        states: &mut HashMap<usize, usize>,
        found: &mut HashSet<usize>,
        chain: usize,
        step: usize,
    ) {
        states.insert(chain, step);
        if step == self.chains[chain].final_step.0 {
            self.kill(states, chain);
            self.job(states, found, self.chains[chain].result);
        }
    }

    fn job(&self, states: &mut HashMap<usize, usize>, found: &mut HashSet<usize>, job: WordJob) {
        match job {
            WordJob::DoMatch { id } => {
                found.insert(id.0);
            }
            WordJob::StartChain { id, pre_condition } => {
                if let Some((parent, step)) = pre_condition {
                    if states.get(&parent.0) != Some(&step.0) {
                        return;
                    }
                }
                self.enter(states, found, id.0, 1);
            }
            WordJob::StepChain { id, step } => {
                if states.get(&id.0) == Some(&step.0) {
                    self.enter(states, found, id.0, step.0 + 1);
                }
            }
        }
    }

    fn matches(&self, haystack: &str) -> Vec<usize> {
        let bytes = haystack.as_bytes();
        let mut states = HashMap::new();
        let mut found = HashSet::new();
        for start in 0..bytes.len() {
            for starting in [false, true] {
                for end in start + 1..=bytes.len() {
                    let piece = &bytes[start..end];
                    if let Some(word) = self.words.iter().position(|w| w.as_bytes() == piece) {
                        for job in self.word_jobs[word].iter().rev() {
                            if matches!(job, WordJob::StartChain { .. }) == starting {
                                self.job(&mut states, &mut found, *job);
                            }
                        }
                    }
                }
            }
        }
        let mut ids: Vec<usize> = found.into_iter().collect();
        ids.sort();
        ids
    }
}

struct Dice(u64);

impl Dice {
    fn roll(&mut self, sides: usize) -> usize {
        self.0 = self.0.wrapping_mul(6364136223846793005).wrapping_add(1442695040888963407);
        ((self.0 >> 33) as usize) % sides
    }

    fn word(&mut self) -> String {
        let len = 1 + self.roll(3);
        (0..len).map(|_| if self.roll(2) == 0 { 'a' } else { 'b' }).collect()
    }

    fn pattern(&mut self, depth: usize) -> String {
        match if depth == 0 { 0 } else { self.roll(4) } {
            0 | 1 => self.word(),
            2 => {
                let parts: Vec<String> = (0..2 + self.roll(2)).map(|_| self.pattern(depth - 1)).collect();
                format!("({})", parts.join("|"))
            }
            _ => {
                let parts: Vec<String> = (0..2 + self.roll(2))
                    .map(|_| {
                        let part = self.pattern(depth - 1);
                        if part.contains(".*") && !part.starts_with('(') {
                            format!("({}|{})", part, self.word())
                        } else {
                            part
                        }
                    })
                    .collect();
                parts.join(".*")
            }
        }
    }

    fn haystack(&mut self) -> String {
        let len = self.roll(14);
        (0..len).map(|_| ['a', 'b', ' '][self.roll(3)]).collect()
    }
}

#[test]
fn set_matches_what_the_naive_scan_matches() {
    let mut dice = Dice(2024);
    for _ in 0..300 {
        let patterns: Vec<String> = (0..1 + dice.roll(5)).map(|_| dice.pattern(2)).collect();
        let sources: Vec<&str> = patterns.iter().map(String::as_str).collect();
        let set = StrexSet::new(&sources).unwrap();
        let model = Model::new(&sources);
        for _ in 0..20 {
            let haystack = dice.haystack();
            let got: Vec<usize> = set.matches(&haystack).iter().map(|id| id.0).collect();
            assert_eq!(got, model.matches(&haystack), "{:?} on {:?}", patterns, haystack);
        }
    }
}

#[test]
fn large_set_matches_what_the_naive_scan_matches() {
    let mut dice = Dice(99);
    for _ in 0..8 {
        let patterns: Vec<String> = (0..150 + dice.roll(100)).map(|_| dice.pattern(2)).collect();
        let sources: Vec<&str> = patterns.iter().map(String::as_str).collect();
        let set = StrexSet::new(&sources).unwrap();
        let model = Model::new(&sources);
        for _ in 0..10 {
            let haystack: String = (0..40 + dice.roll(20)).map(|_| ['a', 'b', ' '][dice.roll(3)]).collect();
            let got: Vec<usize> = set.matches(&haystack).iter().map(|id| id.0).collect();
            assert_eq!(got, model.matches(&haystack), "on {:?}", haystack);
        }
    }
}

#[test]
fn set_of_long_words_matches_what_the_naive_scan_matches() {
    let mut dice = Dice(5);
    for _ in 0..20 {
        let mut patterns: Vec<String> = Vec::new();
        for _ in 0..120 {
            let parts: Vec<String> = (0..1 + dice.roll(3))
                .map(|_| (0..1 + dice.roll(6)).map(|_| ['a', 'b', 'c'][dice.roll(3)]).collect())
                .collect();
            patterns.push(parts.join(".*"));
        }
        let sources: Vec<&str> = patterns.iter().map(String::as_str).collect();
        let set = StrexSet::new(&sources).unwrap();
        let model = Model::new(&sources);
        for _ in 0..5 {
            let haystack: String = (0..60).map(|_| ['a', 'b', 'c'][dice.roll(3)]).collect();
            let got: Vec<usize> = set.matches(&haystack).iter().map(|id| id.0).collect();
            assert_eq!(got, model.matches(&haystack), "on {:?}", haystack);
        }
    }
}

#[test]
fn many_words_are_told_apart() {
    let mut dice = Dice(7);
    let mut words: Vec<String> = Vec::new();
    for i in 0..2000 {
        words.push(format!("w{}x{}", i, dice.roll(1000)));
    }
    let sources: Vec<&str> = words.iter().map(String::as_str).collect();
    let set = StrexSet::new(&sources).unwrap();
    assert_eq!(set.len(), 2000);
    let got: Vec<usize> = set.matches(&words[1234]).iter().map(|id| id.0).collect();
    assert!(got.contains(&1234));
    for id in got {
        assert!(words[1234].contains(&words[id]));
    }
}
