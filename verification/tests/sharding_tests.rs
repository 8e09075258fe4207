use password_crack::CandidateStream;
use password_crack::PasswordGenerator;
use password_crack::Strategy;
use password_crack::filter_for_worker_index;
use password_crack::make_candidate_stream;

fn collect_all(mut stream: CandidateStream) -> Vec<String> {
    let mut out = Vec::new();
    while let Some(w) = stream.next() {
        out.push(w);
    }
    out
}

#[test]
fn shards_partition_the_stream() {
    let digits: Vec<char> = "0123456789".chars().collect();
    let strategy = Strategy::GenPasswords {
        charsets: digits,
        min_password_len: 1,
        max_password_len: 2,
    };
    let full = collect_all(make_candidate_stream(&strategy));
    assert_eq!(full.len(), 110);

    let workers = 3;
    let mut shards: Vec<Vec<String>> = Vec::new();
    for index in 1..=workers {
        let stream = make_candidate_stream(&strategy);
        let mut shard = filter_for_worker_index(stream, workers, index);
        let mut words = Vec::new();
        while let Some(w) = shard.next() {
            words.push(w);
        }
        shards.push(words);
    }
    // each candidate index goes to exactly one worker, in order
    let mut recombined: Vec<String> = vec![String::new(); full.len()];
    let mut seen = vec![false; full.len()];
    for (w, shard) in shards.iter().enumerate() {
        for (k, word) in shard.iter().enumerate() {
            let position = w + k * workers;
            assert!(position < full.len());
            assert!(!seen[position]);
            seen[position] = true;
            recombined[position] = word.clone();
        }
    }
    assert!(seen.iter().all(|&s| s));
    assert_eq!(recombined, full);
}

#[test]
fn single_worker_shard_is_the_whole_stream() {
    let strategy = Strategy::PasswordFile(b"a\nbb\nccc".to_vec());
    let full = collect_all(make_candidate_stream(&strategy));
    let mut shard = filter_for_worker_index(make_candidate_stream(&strategy), 1, 1);
    let mut words = Vec::new();
    while let Some(w) = shard.next() {
        words.push(w);
    }
    assert_eq!(words, full);
    assert_eq!(words, vec!["a", "bb", "ccc"]);
}

#[test]
fn generator_stream_matches_generator() {
    let strategy = Strategy::GenPasswords {
        charsets: vec!['x', 'y'],
        min_password_len: 1,
        max_password_len: 2,
    };
    let via_stream = collect_all(make_candidate_stream(&strategy));
    let mut g = PasswordGenerator::new(vec!['x', 'y'], 1, 2);
    let mut direct = Vec::new();
    while let Some(w) = g.next() {
        direct.push(w);
    }
    assert_eq!(via_stream, direct);
}
