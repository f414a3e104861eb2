use texreflow::config::{Args, ReflowMode, TabChar};
use texreflow::scan::{LineScan, Pattern};
use texreflow::semantic::{
    blocks_sentence_break, clause_breaks, close_line, find_letters, is_clause_boundary, is_inner_period,
    is_inner_run, is_terminator, pack_clauses, semantically_reflow, sentence_breaks, Nesting,
};

fn chars(s: &str) -> Vec<char> {
    s.chars().collect()
}

fn args(wraplen: usize) -> Args {
    Args {
        wraplen,
        wrapmin: 0,
        wrap_chars: vec![' '],
        tabsize: 2,
        tabchar: TabChar::Space,
        reflow: ReflowMode::Semantic,
    }
}

fn scan(comment: Option<usize>) -> LineScan {
    LineScan {
        pattern: Pattern {
            contains_env_begin: false,
            contains_env_end: false,
            contains_verb: false,
        },
        ignore: false,
        verbatim: false,
        table: false,
        splitting: false,
        forced_break: false,
        comment,
    }
}

fn reflowed(text: &str, wraplen: usize) -> String {
    let lines: Vec<Vec<char>> = text.lines().map(chars).collect();
    let scans: Vec<LineScan> = lines
        .iter()
        .map(|l| scan(l.iter().position(|&c| c == '%')))
        .collect();
    semantically_reflow(&lines, &scans, &args(wraplen), "\n")
}

fn sentences(line: &str) -> Vec<String> {
    let line = chars(line);
    let mut cuts = vec![0];
    cuts.extend(sentence_breaks(&line, None, false));
    cuts.push(line.len());
    cuts.windows(2).map(|w| line[w[0]..w[1]].iter().collect()).collect()
}

fn clauses(line: &str) -> Vec<String> {
    let line = chars(line);
    let mut cuts = vec![0];
    cuts.extend(clause_breaks(&line, None, Nesting::new()));
    cuts.push(line.len());
    cuts.windows(2).map(|w| line[w[0]..w[1]].iter().collect()).collect()
}

#[test]
fn terminators_and_clause_boundaries() {
    for c in "a.!?,;: \u{3002}".chars() {
        assert_eq!(is_terminator(c), matches!(c, '.' | '!' | '?'));
        assert_eq!(is_clause_boundary(c), matches!(c, ',' | ';' | ':'));
    }
}

#[test]
fn periods_of_abbreviations_and_numbers() {
    let blocks = |s: &str| blocks_sentence_break(&chars(s), s.chars().count() - 1);
    for s in [
        ".", "3.", "in 3.", "A.", "e.g.", "see Fig.", "FIG.", "etc.", "et al.", "Prof.", "pp.",
        "\u{c9}.", "(a.", "x cf.",
    ] {
        assert!(blocks(s), "{s}");
    }
    for s in [
        "end.", "so?", "3!", " .", ").", "figs.", "\u{c9}t.", "a\u{20ac}.", "x\u{661}.", "netc.",
        "..", "no\u{f6}.",
    ] {
        assert!(!blocks(s), "{s}");
    }
}

#[test]
fn letters_are_those_of_unicode() {
    let line = chars("aZ1_\u{e9}\u{df}\u{20ac}\u{661}\u{4e00}");
    let expected = [true, true, false, false, true, true, false, false, true];
    assert_eq!(find_letters(&line), expected);
}

#[test]
fn letters_decide_which_word_ends_in_a_period() {
    let line = chars("xcf.");
    assert!(!is_inner_period(&line, &[true, true, true, false], 3));
    assert!(is_inner_period(&line, &[false, true, true, false], 3));
    assert!(is_inner_period(&line, &[true, false, true, false], 3));
    assert!(!is_inner_period(&line, &[true, true, false, false], 3));
    assert!(!is_inner_period(&line, &[true, true, true, false], 2));
}

#[test]
fn every_abbreviation_is_known() {
    for word in [
        "etc", "cf", "vs", "al", "resp", "approx", "Fig", "Eq", "Sec", "Ref", "No", "vol", "pp",
        "Dr", "Mr", "Mrs", "Ms", "Prof",
    ] {
        for form in [word.to_string(), word.to_uppercase(), word.to_lowercase()] {
            let line = chars(&format!("x {form}. y"));
            assert_eq!(sentence_breaks(&line, None, false), [], "{form}");
        }
    }
}

#[test]
fn lines_are_broken_into_sentences() {
    assert_eq!(sentences("One. Two! Three? four"), ["One.", " Two!", " Three?", " four"]);
    assert_eq!(sentences("Wait... what?! No"), ["Wait...", " what?!", " No"]);
    assert_eq!(sentences("See Fig. 3 and e.g. this. Next"), ["See Fig. 3 and e.g. this.", " Next"]);
    assert_eq!(sentences("In Sec. 3. Then"), ["In Sec. 3. Then"]);
    assert_eq!(sentences("It is 3.14 long."), ["It is 3.14 long."]);
    assert_eq!(sentences("One.Two"), ["One.Two"]);
    assert_eq!(sentences("One.  "), ["One.  "]);
    assert_eq!(sentences("Caf\u{e9}.\u{3000}Th\u{e9}"), ["Caf\u{e9}.", "\u{3000}Th\u{e9}"]);
    assert_eq!(sentences("One.) Two"), ["One.) Two"]);
}

#[test]
fn sentences_do_not_end_in_math() {
    assert_eq!(sentences("So $a. b$ is. Then"), ["So $a. b$ is.", " Then"]);
    assert_eq!(sentences("So \\(a. b\\) is. Then"), ["So \\(a. b\\) is.", " Then"]);
    assert_eq!(sentences("Costs \\$5 now. Then"), ["Costs \\$5 now.", " Then"]);
    assert_eq!(sentences("Open $ab. cd"), ["Open $ab. cd"]);
}

#[test]
fn sentences_do_not_end_in_comments() {
    let line = chars("One. Two % a note. more");
    assert_eq!(sentence_breaks(&line, Some(9), false), [4]);
    assert_eq!(sentence_breaks(&line, None, false), [4, 18]);
    let line = chars("One. % a note");
    assert_eq!(sentence_breaks(&line, Some(5), false), []);
    assert_eq!(clause_breaks(&chars("a, % b, c"), Some(3), Nesting::new()), []);
    assert_eq!(clause_breaks(&chars("a, b % b, c"), Some(5), Nesting::new()), [2]);
}

#[test]
fn lines_are_broken_at_clauses() {
    assert_eq!(clauses("one, two; three: four"), ["one,", " two;", " three:", " four"]);
    assert_eq!(clauses("one,two ,"), ["one,two ,"]);
    assert_eq!(clauses("see \\cite{a, b}, (c, d) [e, f] g"), [
        "see \\cite{a, b},",
        " (c, d) [e, f] g"
    ]);
    assert_eq!(clauses("$a, b$, \\(c, d\\), e"), ["$a, b$,", " \\(c, d\\),", " e"]);
    assert_eq!(clauses("a\\{, b), c"), ["a\\{,", " b),", " c"]);
    assert_eq!(clauses("a(b, c"), ["a(b, c"]);
}

#[test]
fn open_groups_and_math_cross_lines() {
    assert_eq!(reflowed("on $xx\nyy. zz$ go", 80), "on $xx\nyy. zz$ go\n");
    assert_eq!(reflowed("on \\(xx\nyy. zz\\) go. Then", 80), "on \\(xx\nyy. zz\\) go.\nThen\n");
    assert_eq!(reflowed("see (one\ntwo, three) four, five", 9), "see (one\ntwo, three) four,\nfive\n");
    assert_eq!(reflowed("see \\{one\ntwo, three", 5), "see \\{one\ntwo,\nthree\n");
    assert_eq!(sentence_breaks(&chars("ab. cd$ ef. gh"), None, true), [11]);
    let nest = Nesting { in_math: true, brace: 1, bracket: 0, paren: 2 };
    assert_eq!(clause_breaks(&chars("a, $ b, } c, )) d, e"), None, nest), [18]);
    assert!(!nest.is_outside());
    assert!(close_line(&chars("$})) % ("), Some(5), nest).is_outside());
    let after = close_line(&chars("$[ \\( x"), None, Nesting::new());
    assert_eq!(after, Nesting { in_math: true, brace: 0, bracket: 1, paren: 0 });
}

#[test]
fn only_runs_of_periods_are_ambiguous() {
    assert_eq!(sentences("So etc.? No"), ["So etc.?", " No"]);
    assert_eq!(sentences("So etc.. No"), ["So etc.. No"]);
    assert_eq!(sentences("In 3.! No"), ["In 3.!", " No"]);
    assert!(is_inner_run(&chars("etc.."), 5));
    assert!(!is_inner_run(&chars("etc.!"), 5));
    assert!(!is_inner_run(&chars("end."), 4));
}

#[test]
fn clauses_are_packed() {
    let line = chars("Alpha beta, gamma delta; epsilon zeta eta.");
    let ends = clause_breaks(&line, None, Nesting::new());
    assert_eq!(ends, [11, 24]);
    assert_eq!(pack_clauses(&line, 0, 42, &ends, 20), [11, 24]);
    assert_eq!(pack_clauses(&line, 0, 42, &ends, 24), [24]);
    assert_eq!(pack_clauses(&line, 0, 42, &ends, 30), [24]);
    assert_eq!(pack_clauses(&line, 0, 42, &ends, 42), []);
    assert_eq!(pack_clauses(&line, 0, 42, &ends, 5), [11, 24]);
    // Only ends within the segment count.
    assert_eq!(pack_clauses(&line, 11, 42, &ends, 20), [24]);
    assert_eq!(pack_clauses(&line, 0, 24, &ends, 20), [11]);
}

#[test]
fn overlong_clauses_stand_alone() {
    let line = chars("a, bbbbbbbbbbbb, c, d");
    let ends = clause_breaks(&line, None, Nesting::new());
    assert_eq!(ends, [2, 16, 19]);
    assert_eq!(pack_clauses(&line, 0, 21, &ends, 6), [2, 16]);
}

#[test]
fn sentences_get_lines_of_their_own() {
    assert_eq!(reflowed("  One two. Three \nfour. Five.", 80), "One two.\nThree\nfour.\nFive.\n");
}

#[test]
fn authored_breaks_are_kept() {
    let (first, second) = ("One two. (Three)", "four, five. Six % x. y");
    let both = format!("{first}\n{second}");
    for wraplen in [3, 8, 80] {
        let apart = reflowed(first, wraplen) + &reflowed(second, wraplen);
        assert_eq!(reflowed(&both, wraplen), apart);
    }
}

#[test]
fn long_sentences_are_broken_at_clauses() {
    let text = "Short one, here. Alpha beta, gamma delta; epsilon zeta eta.";
    let expected = "Short one, here.\nAlpha beta,\ngamma delta;\nepsilon zeta eta.\n";
    assert_eq!(reflowed(text, 20), expected);
    let expected = "Short one, here.\nAlpha beta, gamma delta;\nepsilon zeta eta.\n";
    assert_eq!(reflowed(text, 30), expected);
    let expected = "Short one, here.\nAlpha beta, gamma delta; epsilon zeta eta.\n";
    assert_eq!(reflowed(text, 42), expected);
}

#[test]
fn length_is_measured_trimmed() {
    assert_eq!(reflowed("    one, two    ", 8), "one, two\n");
    assert_eq!(reflowed("    one, two    ", 7), "one,\ntwo\n");
}

#[test]
fn blank_lines_vanish() {
    let scans = [scan(None)];
    assert_eq!(semantically_reflow(&[chars("  ")], &scans, &args(5), "\n"), "");
    assert_eq!(semantically_reflow(&[], &[], &args(5), "\n"), "");
}

#[test]
fn words_are_kept() {
    let text = "Dr. A. Smith, e.g., said: wait...  what? $x, y. z$ (so, what) then; end. % ok, so.";
    for wraplen in 0..40 {
        let out = reflowed(text, wraplen);
        let words: Vec<&str> = text.split_whitespace().collect();
        assert_eq!(out.split_whitespace().collect::<Vec<&str>>(), words);
        assert!(out.contains("$x, y. z$ (so, what) then;"));
    }
}

#[test]
fn clauses_take_the_fewest_lines() {
    let text = chars("aa, b, cccc, d, ee, ffffff, g");
    let n = text.len();
    let clauses: Vec<usize> = (1..n).filter(|&p| text[p - 1] == ',').collect();
    let width = |a: usize, b: usize| text[a..b].iter().collect::<String>().trim().chars().count();
    for wraplen in 1..n + 1 {
        let packed = pack_clauses(&text, 0, n, &clauses, wraplen).len();
        for choice in 0..1_usize << clauses.len() {
            let mut cuts = vec![0];
            cuts.extend((0..clauses.len()).filter(|i| choice >> i & 1 == 1).map(|i| clauses[i]));
            cuts.push(n);
            let fair = cuts.windows(2).all(|w| {
                width(w[0], w[1]) <= wraplen || !clauses.iter().any(|&c| w[0] < c && c < w[1])
            });
            assert!(!fair || packed <= cuts.len() - 2);
        }
    }
    assert_eq!(pack_clauses(&text, 0, n, &clauses, 11), [6, 15, 27]);
    assert_eq!(pack_clauses(&text, 0, n, &clauses, 12), [12, 19]);
}
