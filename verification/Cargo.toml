[package]
name = "milli"
version = "0.1.0"
edition = "2021"
publish = false

[dependencies]
roaring = "*"
fst = "0.4"
levenshtein_automata = { version = "0.2", features = ["fst_automaton"] }
