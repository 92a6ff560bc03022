[package]
name = "fuzzies"
version = "0.1.0"
edition = "2021"
publish = false

[dependencies]
fst = "0.4"
levenshtein_automata = { version = "0.2", features = ["fst_automaton"] }
memmap2 = "0.9"
rayon = "1"
thiserror = "2"
