use wikifreq::index::{find_nth, ArticleDescriptor, IndexError};
use wikifreq::blocks::{BlockGrouper, DumpBlock, GroupError};
use wikifreq::counts::WordCounts;
use wikifreq::vocab::{Vocabulary, wiktionary_index_to_wordset};
use wikifreq::output::{sorted_by_count_desc, render_line, render_frequency_list};

fn vocab_of(words: &[&str]) -> Vocabulary {
    Vocabulary { words: words.iter().map(|w| w.to_string()).collect() }
}

fn counts_of(pairs: &[(&str, u64)]) -> WordCounts {
    let mut c = WordCounts::new();
    for (w, n) in pairs {
        c.add(&w.to_string(), *n);
    }
    c
}

#[test]
fn find_nth_positions() {
    assert_eq!(find_nth("a:b:c", ':', 1), Some(1));
    assert_eq!(find_nth("a:b:c", ':', 2), Some(3));
    assert_eq!(find_nth("a:b:c", ':', 3), None);
    assert_eq!(find_nth("a:b:c", ':', 0), None);
}

#[test]
fn descriptor_parses_offset_id_title() {
    let d = ArticleDescriptor::from_index_line("100:7:Alpha: the beginning").unwrap();
    assert_eq!(d.offset, 100);
    assert_eq!(d.id, 7);
    assert_eq!(d.title, "Alpha: the beginning");
}

#[test]
fn descriptor_errors() {
    assert_eq!(
        ArticleDescriptor::from_index_line("nocolon").unwrap_err(),
        IndexError::NoOffsetSeparator
    );
    assert_eq!(
        ArticleDescriptor::from_index_line("12:34").unwrap_err(),
        IndexError::NoIdSeparator
    );
    assert_eq!(
        ArticleDescriptor::from_index_line("x2:3:T").unwrap_err(),
        IndexError::InvalidOffset
    );
    assert_eq!(
        ArticleDescriptor::from_index_line("99999999999999999999:3:T").unwrap_err(),
        IndexError::InvalidOffset
    );
    assert_eq!(
        ArticleDescriptor::from_index_line("2:x:T").unwrap_err(),
        IndexError::InvalidId
    );
}

#[test]
fn index_lines_group_into_two_blocks() {
    let lines = ["100:1:Alpha", "100:2:Beta", "250:3:Gamma"];
    let mut grouper = BlockGrouper::new();
    let mut groups: Vec<Vec<ArticleDescriptor>> = Vec::new();
    for line in lines {
        let d = ArticleDescriptor::from_index_line(line).unwrap();
        if let Some(g) = grouper.push(d).unwrap() {
            groups.push(g);
        }
    }
    if let Some(g) = grouper.finish() {
        groups.push(g);
    }
    assert_eq!(groups.len(), 2);
    assert_eq!(groups[0].len(), 2);
    assert_eq!(groups[0][0].title, "Alpha");
    assert_eq!(groups[0][1].title, "Beta");
    assert_eq!(groups[0][0].offset, 100);
    assert_eq!(groups[1].len(), 1);
    assert_eq!(groups[1][0].title, "Gamma");
    assert_eq!(groups[1][0].offset, 250);
}

#[test]
fn group_of_one_hundred_succeeds_and_one_more_is_fatal() {
    let mut grouper = BlockGrouper::new();
    for id in 0..100usize {
        let d = ArticleDescriptor { offset: 42, id, title: format!("t{}", id) };
        assert!(grouper.push(d).unwrap().is_none());
    }
    let extra = ArticleDescriptor { offset: 42, id: 100, title: "t100".to_string() };
    assert_eq!(grouper.push(extra).unwrap_err(), GroupError::TooManyDescriptors);
    let g = grouper.finish().unwrap();
    assert_eq!(g.len(), 100);
}

#[test]
fn vocabulary_line_field_is_lowercased() {
    let lines = vec![
        "a:b:Run".to_string(),
        "c:d:R2n".to_string(),
        String::new(),
        "e:f:Walk".to_string(),
    ];
    let v = wiktionary_index_to_wordset(&lines).unwrap();
    assert!(v.contains(&"run".to_string()));
    assert!(v.contains(&"walk".to_string()));
    assert!(!v.contains(&"r2n".to_string()));
    assert!(!v.contains(&"Run".to_string()));
}

#[test]
fn vocabulary_line_without_two_separators_is_fatal() {
    let lines = vec!["a:b:Fine".to_string(), "broken".to_string()];
    let e = wiktionary_index_to_wordset(&lines).unwrap_err();
    assert_eq!(e.line, 1);
}

#[test]
fn block_description_names_its_range() {
    let descriptors = vec![
        ArticleDescriptor { offset: 100, id: 1, title: "Alpha".to_string() },
        ArticleDescriptor { offset: 100, id: 2, title: "Beta".to_string() },
    ];
    let b = DumpBlock::assemble(descriptors, "x".to_string());
    assert_eq!(b.describe(), "DumpBlock { Alpha-Beta (1-2), 2 descriptors, 24 chars in xml }");
}

#[test]
fn block_content_is_wrapped_in_container() {
    let b = DumpBlock::assemble(Vec::new(), "x".to_string());
    assert_eq!(b.raw_xml, "<dummyroot>x</dummyroot>");
}

#[test]
fn block_extraction_counts_vocabulary_words() {
    let vocab = vocab_of(&["cat", "dog"]);
    let content = "<page><title>T</title><text>The cat sat. A CAT! dog-dog's</text></page>";
    let b = DumpBlock::assemble(Vec::new(), content.to_string());
    let c = b.process(&vocab).unwrap();
    assert_eq!(c.get(&"cat".to_string()), 2);
    // "dog-dog's" is one word-rule match; normalized it is "dogdogs", which
    // the vocabulary does not hold, so no "dog" occurrence is counted
    assert_eq!(c.get(&"dog".to_string()), 0);
    assert_eq!(c.get(&"dogdogs".to_string()), 0);
    assert_eq!(c.get(&"the".to_string()), 0);
}

#[test]
fn wrapped_unit_with_two_records_parses_as_one_document() {
    let vocab = vocab_of(&["cat", "dog"]);
    let content = "<page><text>cat</text></page><page><text>dog dog</text></page>";
    let b = DumpBlock::assemble(Vec::new(), content.to_string());
    let c = b.process(&vocab).unwrap();
    assert_eq!(c.get(&"cat".to_string()), 1);
    assert_eq!(c.get(&"dog".to_string()), 2);
}

#[test]
fn extraction_reads_only_text_elements() {
    let vocab = vocab_of(&["cat", "dog"]);
    let content = "<page><title>cat</title><text>dog</text></page>";
    let b = DumpBlock::assemble(Vec::new(), content.to_string());
    let c = b.process(&vocab).unwrap();
    assert_eq!(c.get(&"cat".to_string()), 0);
    assert_eq!(c.get(&"dog".to_string()), 1);
}

#[test]
fn unparsable_block_is_fatal() {
    let vocab = vocab_of(&["cat"]);
    let b = DumpBlock::assemble(Vec::new(), "<unclosed".to_string());
    assert!(b.process(&vocab).is_err());
}

#[test]
fn merge_sums_counts() {
    let mut a = counts_of(&[("cat", 2), ("dog", 1)]);
    let b = counts_of(&[("dog", 3), ("owl", 5)]);
    a.merge_from(&b);
    assert_eq!(a.get(&"cat".to_string()), 2);
    assert_eq!(a.get(&"dog".to_string()), 4);
    assert_eq!(a.get(&"owl".to_string()), 5);
}

#[test]
fn merge_is_associative_and_commutative_on_partitions() {
    // one fixed multiset of words, split into groups several ways
    let words = ["a", "b", "a", "c", "b", "a", "d", "c", "a", "b"];
    let splits: [&[usize]; 4] = [&[10], &[1, 9], &[3, 3, 4], &[5, 2, 3]];
    let mut results: Vec<WordCounts> = Vec::new();
    for split in splits {
        let mut total = WordCounts::new();
        let mut start = 0usize;
        for len in split {
            let mut local = WordCounts::new();
            for w in &words[start..start + len] {
                local.add(&w.to_string(), 1);
            }
            start += len;
            total.merge_from(&local);
        }
        results.push(total);
    }
    for r in &results {
        assert_eq!(r.get(&"a".to_string()), 4);
        assert_eq!(r.get(&"b".to_string()), 3);
        assert_eq!(r.get(&"c".to_string()), 2);
        assert_eq!(r.get(&"d".to_string()), 1);
    }
    // reversed merge order
    let left = counts_of(&[("a", 1), ("b", 2)]);
    let right = counts_of(&[("b", 1), ("c", 4)]);
    let mut lr = WordCounts::new();
    lr.merge_from(&left);
    lr.merge_from(&right);
    let mut rl = WordCounts::new();
    rl.merge_from(&right);
    rl.merge_from(&left);
    for w in ["a", "b", "c"] {
        assert_eq!(lr.get(&w.to_string()), rl.get(&w.to_string()));
    }
}

#[test]
fn render_line_formats_word_and_count() {
    let s = render_line(&"cat".to_string(), 42);
    assert_eq!(s, "cat 42");
    assert_eq!(render_line(&"a".to_string(), 0), "a 0");
}

#[test]
fn output_lines_are_sorted_by_descending_count() {
    let c = counts_of(&[("a", 5), ("the", 5), ("cat", 2)]);
    let sorted = sorted_by_count_desc(&c);
    assert_eq!(sorted.len(), 3);
    assert_eq!(sorted[0].1, 5);
    assert_eq!(sorted[1].1, 5);
    assert_eq!(sorted[2], ("cat".to_string(), 2));
    let lines = render_frequency_list(&c);
    assert_eq!(lines.len(), 3);
    assert!(
        (lines[0] == "a 5" && lines[1] == "the 5") || (lines[0] == "the 5" && lines[1] == "a 5")
    );
    assert_eq!(lines[2], "cat 2");
}
