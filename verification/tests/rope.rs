use crop::rope::byte_metric::{
    byte_at, byte_slice, can_cut_bytes, cut_bytes, cut_text, ByteMetric,
};
use crop::rope::graphemes::{
    after_answer, chunk_at_offset, chunk_before, is_grapheme_boundary, BoundaryAnswer, NextStep,
};
use crop::rope::rope_chunk::{
    offset_after_lf, split_point, summarize_bytes, ChunkSummary, LineMetric, RopeChunk,
};
use crop::rope::utils::{
    adjust_split_point, bytes_line_break, bytes_match, chunks_eq_chunks, chunks_eq_str,
    debug_chunks, ends_in_cr, is_splitting_crlf_pair, last_byte_is_newline, push_escaped,
    rope_chunk_append, starts_with_lf,
};
use crop::tree::{BaseMetric, Leaf, ReplaceableLeaf, Summary, Tree};
use unicode_segmentation::GraphemeCursor;

type Text = Tree<4, RopeChunk<4>>;

/// Divides a text into chunks of at most four bytes, never inside a
/// character or a CRLF pair.
fn chunks_of(mut text: &str) -> Vec<RopeChunk<4>> {
    let mut chunks = Vec::new();
    let mut current = String::new();
    while !text.is_empty() {
        let (to_add, rest) = rope_chunk_append::<4>(&current, text);
        if to_add.is_empty() {
            chunks.push(RopeChunk { bytes: current.clone().into_bytes() });
            current.clear();
        } else {
            current.push_str(to_add);
            text = rest;
        }
    }
    chunks.push(RopeChunk { bytes: current.into_bytes() });
    chunks
}

fn text_of(tree: &Text) -> Vec<u8> {
    let mut all = Vec::new();
    for leaf in tree.leaves() {
        all.extend_from_slice(leaf);
    }
    all
}

#[test]
fn crlf_pair_is_detected() {
    let s = "ab\r\n cd";
    assert!(is_splitting_crlf_pair(s, 3));
    assert!(!is_splitting_crlf_pair(s, 2));
    assert!(!is_splitting_crlf_pair(s, 4));
    assert!(!is_splitting_crlf_pair(s, 0));
    assert!(!is_splitting_crlf_pair(s, 7));
    assert!(!is_splitting_crlf_pair("\n", 0));
    assert!(!is_splitting_crlf_pair("\r", 1));
}

#[test]
fn split_point_leaves_a_crlf_pair_whole() {
    let s = "ab\r\n cd";
    assert_eq!(4, adjust_split_point::<true>(s, 3));
    assert_eq!(2, adjust_split_point::<false>(s, 3));
    assert_eq!(2, adjust_split_point::<true>(s, 2));
    assert_eq!(2, adjust_split_point::<false>(s, 2));
    assert_eq!(4, adjust_split_point::<true>(s, 4));
    assert_eq!(7, adjust_split_point::<true>(s, 7));
    assert_eq!(7, adjust_split_point::<false>(s, 100));
    assert_eq!(0, adjust_split_point::<false>(s, 0));
}

#[test]
fn split_point_leaves_a_character_whole() {
    let s = "a\u{e9}b\u{1F600}c";
    assert_eq!(3, adjust_split_point::<true>(s, 2));
    assert_eq!(1, adjust_split_point::<false>(s, 2));
    assert_eq!(8, adjust_split_point::<true>(s, 5));
    assert_eq!(4, adjust_split_point::<false>(s, 5));
    assert_eq!(8, adjust_split_point::<true>(s, 7));
    assert_eq!(4, adjust_split_point::<false>(s, 7));
    assert_eq!(9, adjust_split_point::<true>(s, 9));
}

#[test]
fn ends_and_starts_of_lines() {
    assert!(ends_in_cr("ab\r"));
    assert!(!ends_in_cr("ab\n"));
    assert!(starts_with_lf("\nab"));
    assert!(!starts_with_lf("ab"));
    assert!(!starts_with_lf(""));
    assert!(last_byte_is_newline("ab\n"));
    assert!(!last_byte_is_newline("ab"));
    assert!(!last_byte_is_newline(""));
    assert_eq!(1, bytes_line_break("\n"));
    assert_eq!(1, bytes_line_break("ab\n"));
    assert_eq!(2, bytes_line_break("ab\r\n"));
    assert_eq!(2, bytes_line_break("\r\n"));
}

#[test]
fn append_fills_a_chunk() {
    assert_eq!(("cd", "\r\nef"), rope_chunk_append::<4>("ab", "cd\r\nef"));
    assert_eq!(("\r\n", "x"), rope_chunk_append::<4>("abc", "\r\nx"));
    assert_eq!(("\n", "xy"), rope_chunk_append::<4>("abc\r", "\nxy"));
    assert_eq!(("", "xy"), rope_chunk_append::<4>("abcd", "xy"));
    assert_eq!(("", "\nxy"), rope_chunk_append::<4>("abcd", "\nxy"));
    assert_eq!(("xy", ""), rope_chunk_append::<4>("ab", "xy"));
    assert_eq!(("x", ""), rope_chunk_append::<4>("", "x"));
    assert_eq!(("\u{1F600}", "b"), rope_chunk_append::<4>("abc", "\u{1F600}b"));
    assert_eq!(("", ""), rope_chunk_append::<4>("abcd", ""));
}

#[test]
fn chunks_against_a_string() {
    assert!(chunks_eq_str(&vec!["ab", "", "c\r", "\nd"], "abc\r\nd"));
    assert!(!chunks_eq_str(&vec!["ab", "", "c\r", "\nd"], "abc\r\ne"));
    assert!(!chunks_eq_str(&vec!["ab", "cd"], "axcd"));
    assert!(chunks_eq_str(&Vec::new(), ""));
    assert!(chunks_eq_str(&vec!["\u{e9}"], "\u{e9}"));
}

#[test]
fn chunks_against_chunks() {
    assert!(chunks_eq_chunks(&vec!["ab", "", "c\r", "\nd"], &vec!["a", "bc\r\n", "d"]));
    assert!(chunks_eq_chunks(&vec!["abc"], &vec!["a", "b", "c", ""]));
    assert!(!chunks_eq_chunks(&vec!["abc"], &vec!["a", "b", "d"]));
    assert!(!chunks_eq_chunks(&vec!["xbc"], &vec!["a", "bc"]));
    assert!(chunks_eq_chunks(&Vec::new(), &Vec::new()));
    assert!(chunks_eq_chunks(&vec![""], &Vec::new()));
    assert!(chunks_eq_chunks(&Vec::new(), &vec!["", ""]));
}

#[test]
fn debug_output_escapes() {
    assert_eq!("a\\\"b\\n\\'c", debug_chunks(&vec!["a\"b", "\n'c"]));
    assert_eq!("plain text", debug_chunks(&vec!["plain", " ", "text"]));
    assert_eq!("tab\\there", debug_chunks(&vec!["tab\there"]));
    assert_eq!("", debug_chunks(&Vec::new()));
    let s = "x\u{301}\r\\";
    let quoted = format!("{:?}", s);
    assert_eq!(quoted[1..quoted.len() - 1], debug_chunks(&vec![s]));
}

fn boundary_in_whole(s: &str, offset: usize) -> bool {
    if !s.is_char_boundary(offset) {
        return false;
    }
    GraphemeCursor::new(offset, s.len(), true).is_boundary(s, 0).unwrap()
}

#[test]
fn grapheme_boundaries_across_chunks() {
    let flags = "\u{1F1F7}\u{1F1F8}\u{1F1EE}\u{1F1F4}";
    let chunks = vec![&flags[0..4], &flags[4..8], &flags[8..12], &flags[12..16]];
    assert!(is_grapheme_boundary(&chunks, 16, 0));
    assert!(!is_grapheme_boundary(&chunks, 16, 4));
    assert!(is_grapheme_boundary(&chunks, 16, 8));
    assert!(!is_grapheme_boundary(&chunks, 16, 12));
    assert!(is_grapheme_boundary(&chunks, 16, 16));
    assert!(!is_grapheme_boundary(&chunks, 16, 2));

    let accent = "e\u{301}x";
    let chunks = vec!["e", "\u{301}x"];
    assert!(!is_grapheme_boundary(&chunks, 4, 1));
    assert!(!is_grapheme_boundary(&chunks, 4, 2));
    assert!(is_grapheme_boundary(&chunks, 4, 3));
    assert_eq!(4, accent.len());

    assert!(is_grapheme_boundary(&Vec::new(), 0, 0));
    assert!(is_grapheme_boundary(&vec!["", ""], 0, 0));
}

#[test]
fn grapheme_boundaries_agree_with_the_whole_text() {
    let text = "a\r\n\u{1F468}\u{200D}\u{1F469}\u{200D}\u{1F467}e\u{301}\u{1F1F7}\u{1F1F8}\u{1F1EE}\u{915}\u{94D}\u{937}z";
    for size in 1..7 {
        let mut chunks: Vec<&str> = Vec::new();
        let mut rest = text;
        while !rest.is_empty() {
            let mut cut = size.min(rest.len());
            while !rest.is_char_boundary(cut) {
                cut += 1;
            }
            chunks.push(&rest[..cut]);
            chunks.push("");
            rest = &rest[cut..];
        }
        for offset in 0..=text.len() {
            assert_eq!(
                boundary_in_whole(text, offset),
                is_grapheme_boundary(&chunks, text.len(), offset),
            );
        }
    }
}

#[test]
fn text_is_chunked_outside_crlf_pairs() {
    let chunks = chunks_of("ab\r\n cd");
    let bytes: Vec<&[u8]> = chunks.iter().map(|c| c.bytes.as_slice()).collect();
    assert_eq!(bytes, vec![&b"ab\r\n"[..], &b" cd"[..]]);
    let chunks = chunks_of("abc\r\nd");
    let bytes: Vec<&[u8]> = chunks.iter().map(|c| c.bytes.as_slice()).collect();
    assert_eq!(bytes, vec![&b"abc\r\n"[..], &b"d"[..]]);
}

#[test]
fn slicing_text_at_a_crlf_pair() {
    let s = "ab\r\n cd";
    let tree = Text::from_leaves(chunks_of(s));
    assert!(tree.assert_invariants());
    assert_eq!(text_of(&tree), s.as_bytes());
    assert_eq!(*tree.summary(), ChunkSummary { bytes: 7, line_breaks: 1 });
    let right = adjust_split_point::<true>(s, 3);
    let left = adjust_split_point::<false>(s, 3);
    assert_eq!((4, 2), (right, left));
    let first = Text::from(tree.slice::<ByteMetric<true>>(0..3));
    assert_eq!(text_of(&first), b"ab\r\n");
    let rest = Text::from(tree.slice::<ByteMetric<true>>(3..7));
    assert_eq!(text_of(&rest), b" cd");
    let first = Text::from(tree.slice::<ByteMetric<false>>(0..3));
    assert_eq!(text_of(&first), b"ab");
    let rest = Text::from(tree.slice::<ByteMetric<false>>(3..7));
    assert_eq!(text_of(&rest), b"\r\n cd");
    let first = Text::from(tree.slice::<BaseMetric>(0..right));
    assert_eq!(text_of(&first), b"ab\r\n");
    let rest = Text::from(tree.slice::<BaseMetric>(left..7));
    assert_eq!(text_of(&rest), b"\r\n cd");
}

#[test]
fn no_byte_slice_parts_a_pair_or_a_character() {
    let s = "a\r\n\u{e9}b\r\n\r\n\u{1F600}z\r";
    let bytes = s.as_bytes();
    for size in [1usize, 2, 3, 5, 64] {
        let mut leaves = Vec::new();
        let mut from = 0;
        while from < bytes.len() {
            let want = (from + size).min(bytes.len());
            let to = cut_bytes::<true>(bytes, want);
            leaves.push(RopeChunk::<4> { bytes: bytes[from..to].to_vec() });
            from = to;
        }
        let tree = Text::from_leaves(leaves);
        assert_eq!(text_of(&tree), bytes);
        for start in 0..=bytes.len() {
            for end in start..=bytes.len() {
                let right = text_of(&Text::from(tree.slice::<ByteMetric<true>>(start..end)));
                let from = adjust_split_point::<true>(s, start);
                let to = adjust_split_point::<true>(s, end);
                assert_eq!(right, &bytes[from..to]);
                let left = text_of(&Text::from(tree.slice::<ByteMetric<false>>(start..end)));
                let from = adjust_split_point::<false>(s, start);
                let to = adjust_split_point::<false>(s, end);
                assert_eq!(left, &bytes[from..to]);
            }
        }
        assert_eq!(bytes.len(), tree.measure::<ByteMetric<true>>());
        assert_eq!(3, tree.convert_measure::<ByteMetric<true>, LineMetric>(s.len()));
        assert_eq!(1, tree.convert_measure::<ByteMetric<true>, LineMetric>(2));
        assert_eq!(0, tree.convert_measure::<ByteMetric<false>, LineMetric>(2));
    }
}

#[test]
fn byte_offsets_are_cut_where_text_may_be_cut() {
    let s = "ab\r\n\u{e9}";
    let bytes = s.as_bytes();
    let right: Vec<usize> = (0..=6).map(|at| cut_bytes::<true>(bytes, at)).collect();
    assert_eq!(right, vec![0, 1, 2, 4, 4, 6, 6]);
    let left: Vec<usize> = (0..=6).map(|at| cut_bytes::<false>(bytes, at)).collect();
    assert_eq!(left, vec![0, 1, 2, 2, 4, 4, 6]);
    assert_eq!(0, cut_bytes::<true>(b"", 0));
    assert_eq!(0, cut_bytes::<false>(b"", 0));
    assert_eq!(0, cut_bytes::<true>(b"\n", 0));
    assert_eq!(1, cut_bytes::<false>(b"\r", 1));
}

#[test]
fn lines_of_a_text() {
    let s = "one\ntwo\r\n\nfour and more\nlast";
    let tree = Text::from_leaves(chunks_of(s));
    assert!(tree.assert_invariants());
    assert_eq!(4, tree.measure::<LineMetric>());
    assert_eq!(s.len(), tree.base_measure());
    assert_eq!(0, tree.convert_measure::<LineMetric, BaseMetric>(0));
    assert_eq!(4, tree.convert_measure::<LineMetric, BaseMetric>(1));
    assert_eq!(9, tree.convert_measure::<LineMetric, BaseMetric>(2));
    assert_eq!(10, tree.convert_measure::<LineMetric, BaseMetric>(3));
    assert_eq!(24, tree.convert_measure::<LineMetric, BaseMetric>(4));
    assert_eq!(0, tree.convert_measure::<BaseMetric, LineMetric>(3));
    assert_eq!(1, tree.convert_measure::<BaseMetric, LineMetric>(4));
    assert_eq!(3, tree.convert_measure::<BaseMetric, LineMetric>(10));
    let lines: Vec<Vec<u8>> = tree
        .units::<LineMetric>()
        .iter()
        .map(|unit| unit.leaves().concat())
        .collect();
    assert_eq!(
        lines,
        vec![b"one\n".to_vec(), b"two\r\n".to_vec(), b"\n".to_vec(), b"four and more\n".to_vec()]
    );
    let middle = tree.slice::<LineMetric>(1..3);
    assert_eq!(*middle.summary(), ChunkSummary { bytes: 6, line_breaks: 2 });
    assert_eq!(text_of(&Text::from(middle)), b"two\r\n\n");
    let inner = middle.slice::<LineMetric>(1..2);
    assert_eq!(text_of(&Text::from(inner)), b"\n");
}

#[test]
fn edits_of_a_text() {
    let s = "one\ntwo\r\n\nfour and more\nlast";
    let mut tree = Text::from_leaves(chunks_of(s));
    tree.replace::<BaseMetric>(4..7, vec![&b"2"[..]]);
    assert_eq!(text_of(&tree), b"one\n2\r\n\nfour and more\nlast");
    assert!(tree.assert_invariants());
    tree.replace::<LineMetric>(1..3, vec![&b"a "[..], &b"whole new"[..], &b" line\n"[..]]);
    assert_eq!(text_of(&tree), b"one\na whole new line\nfour and more\nlast");
    assert!(tree.assert_invariants());
    assert_eq!(3, tree.measure::<LineMetric>());
    tree.replace::<BaseMetric>(0..tree.base_measure(), Vec::new());
    assert_eq!(text_of(&tree), b"");
    assert!(tree.assert_invariants());
}

#[test]
fn a_chunk_that_outgrows_its_size_is_split() {
    let mut chunk = RopeChunk::<4> { bytes: b"ab".to_vec() };
    assert!(chunk.replace(1, 1, b"xy").is_none());
    assert_eq!(chunk.bytes, b"axyb");
    let extra = chunk.replace(4, 4, b"\r\n!").unwrap();
    assert_eq!(chunk.bytes, b"axyb");
    assert_eq!(extra.bytes, b"\r\n!");
    let mut chunk = RopeChunk::<4> { bytes: b"abc\r".to_vec() };
    let extra = chunk.replace(4, 4, b"\n").unwrap();
    assert_eq!(chunk.bytes, b"abc");
    assert_eq!(extra.bytes, b"\r\n");
    let mut chunk = RopeChunk::<4> { bytes: "ab\u{e9}".as_bytes().to_vec() };
    let extra = chunk.replace(0, 0, b"x").unwrap();
    assert_eq!(chunk.bytes, b"xab");
    assert_eq!(extra.bytes, "\u{e9}".as_bytes());
    assert_eq!(4, RopeChunk::<4>::max_bytes());
    let (one, two) = RopeChunk::<4>::balance_slices(b"ab", b"cd");
    assert_eq!((one.bytes.as_slice(), two), (&b"abcd"[..], None));
    let (one, two) = RopeChunk::<4>::balance_slices(b"a", b"bcde");
    assert_eq!((one.bytes.as_slice(), two.unwrap().bytes.as_slice()), (&b"ab"[..], &b"cde"[..]));
    let (one, two) = RopeChunk::<4>::balance_slices(b"a", b"b\r\ncd");
    assert_eq!((one.bytes.as_slice(), two.unwrap().bytes.as_slice()), (&b"ab"[..], &b"\r\ncd"[..]));
    assert!(RopeChunk::<4> { bytes: b"ab".to_vec() }.is_big_enough());
    assert!(!RopeChunk::<4> { bytes: b"a".to_vec() }.is_big_enough());
}

#[test]
fn the_offset_after_the_last_unit_stands_for_the_end() {
    let s = "one\ntwo\nrest";
    let tree = Text::from_leaves(chunks_of(s));
    assert_eq!(2, tree.measure::<LineMetric>());
    let last = tree.slice::<LineMetric>(2..3);
    assert_eq!(text_of(&Text::from(last)), b"rest");
    let all = tree.slice::<LineMetric>(0..3);
    assert_eq!(text_of(&Text::from(all)), s.as_bytes());
    assert_eq!(s.len(), tree.convert_measure::<LineMetric, BaseMetric>(3));
    assert_eq!(2, tree.convert_measure::<BaseMetric, LineMetric>(s.len() + 1));
    let whole = tree.slice::<BaseMetric>(0..s.len() + 1);
    assert!(Text::from(whole).shares_root(&tree));
    let tail = whole.slice::<LineMetric>(1..3);
    assert_eq!(text_of(&Text::from(tail)), b"two\nrest");
    let (leaf, before) = tree.leaf_at_measure::<LineMetric>(3);
    assert_eq!(leaf, *tree.leaves().last().unwrap());
    assert_eq!(before, 2 - leaf.iter().filter(|b| **b == b'\n').count());
    let (leaf, before) = tree.leaf_at_measure::<BaseMetric>(s.len() + 1);
    assert_eq!(leaf, *tree.leaves().last().unwrap());
    assert_eq!(before, s.len() - leaf.len());
    let mut edited = tree.clone();
    edited.replace::<LineMetric>(2..3, vec![&b"end"[..]]);
    assert_eq!(text_of(&edited), b"one\ntwo\nend");
    assert_eq!(text_of(&tree), s.as_bytes());
}

#[test]
fn bytes_are_summarized() {
    assert_eq!(summarize_bytes(b""), ChunkSummary { bytes: 0, line_breaks: 0 });
    assert_eq!(summarize_bytes(b"a\nb\r\n\n"), ChunkSummary { bytes: 6, line_breaks: 3 });
    assert_eq!(0, offset_after_lf(b"a\nb\r\n\n", 0));
    assert_eq!(2, offset_after_lf(b"a\nb\r\n\n", 1));
    assert_eq!(5, offset_after_lf(b"a\nb\r\n\n", 2));
    assert_eq!(6, offset_after_lf(b"a\nb\r\n\n", 3));
}

#[test]
fn a_chunk_is_split_between_characters() {
    assert_eq!(3, split_point(b"abcdef", 3));
    assert_eq!(6, split_point(b"abcdef", 6));
    assert_eq!(2, split_point(b"ab\r\ncd", 3));
    assert_eq!(4, split_point(b"ab\r\ncd", 4));
    assert_eq!(1, split_point("a\u{1F600}b".as_bytes(), 4));
    assert_eq!(5, split_point("a\u{1F600}b".as_bytes(), 5));
    assert_eq!(2, split_point(&[0x80, 0x80, 0x80], 2));
}

#[test]
fn bytes_are_compared_in_place() {
    assert!(bytes_match(b"abcdef", 2, b"xcdey", 1, 3));
    assert!(!bytes_match(b"abcdef", 2, b"xcdey", 1, 4));
    assert!(bytes_match(b"abc", 3, b"", 0, 0));
}

#[test]
fn the_chunk_of_an_offset() {
    let chunks = vec!["ab", "", "cde", "", "f", ""];
    assert_eq!((0, 0), chunk_at_offset(&chunks, 6, 0));
    assert_eq!((0, 0), chunk_at_offset(&chunks, 6, 1));
    assert_eq!((2, 2), chunk_at_offset(&chunks, 6, 2));
    assert_eq!((2, 2), chunk_at_offset(&chunks, 6, 4));
    assert_eq!((4, 5), chunk_at_offset(&chunks, 6, 5));
    assert_eq!((5, 6), chunk_at_offset(&chunks, 6, 6));
    assert_eq!(Some(4), chunk_before(&chunks, 6));
    assert_eq!(Some(2), chunk_before(&chunks, 4));
    assert_eq!(Some(0), chunk_before(&chunks, 2));
    assert_eq!(None, chunk_before(&chunks, 0));
    assert_eq!(None, chunk_before(&vec!["", ""], 2));
}

#[test]
fn what_follows_from_an_answer() {
    let chunks = vec!["ab", "", "cde"];
    let step = after_answer(&chunks, 2, 2, BoundaryAnswer::Decided(true));
    assert!(matches!(step, NextStep::Answer(true)));
    let step = after_answer(&chunks, 2, 2, BoundaryAnswer::Decided(false));
    assert!(matches!(step, NextStep::Answer(false)));
    let step = after_answer(&chunks, 2, 2, BoundaryAnswer::PreContext(2));
    assert!(matches!(step, NextStep::Provide(0)));
    let step = after_answer(&chunks, 2, 2, BoundaryAnswer::PreContext(1));
    assert!(matches!(step, NextStep::Answer(false)));
    let step = after_answer(&chunks, 0, 0, BoundaryAnswer::PreContext(0));
    assert!(matches!(step, NextStep::Answer(false)));
    let step = after_answer(&chunks, 2, 2, BoundaryAnswer::Other);
    assert!(matches!(step, NextStep::Answer(false)));
}

#[test]
fn an_escape_sequence_is_appended() {
    let mut out = String::from("x");
    push_escaped(&mut out, 'a', &vec!['a']);
    push_escaped(&mut out, '\n', &vec!['\\', 'n']);
    push_escaped(&mut out, 'b', &vec!['c']);
    push_escaped(&mut out, 'd', &Vec::new());
    assert_eq!(out, "xa\\nb");
}

#[test]
fn the_default_tree_is_empty() {
    let tree = Text::default();
    assert!(tree.assert_invariants());
    assert_eq!(0, tree.base_measure());
    assert_eq!(1, tree.leaf_count());
    assert!(text_of(&tree).is_empty());
}

#[test]
fn many_edits_of_a_text_agree_with_a_plain_buffer() {
    let mut tree = Tree::<4, RopeChunk<8>>::from_leaves(vec![RopeChunk { bytes: b"start\n".to_vec() }]);
    let mut model: Vec<u8> = b"start\n".to_vec();
    let mut kept: Vec<(Tree<4, RopeChunk<8>>, Vec<u8>)> = Vec::new();
    let mut seed: u64 = 0x9E3779B97F4A7C15;
    for round in 0..3000usize {
        seed ^= seed << 13;
        seed ^= seed >> 7;
        seed ^= seed << 17;
        let len = model.len();
        let start = (seed % (len as u64 + 1)) as usize;
        let span = ((seed >> 20) % 12) as usize;
        let end = (start + span).min(len);
        let count = ((seed >> 40) % 4) as usize;
        let fresh: Vec<Vec<u8>> = (0..count)
            .map(|k| {
                let size = ((seed >> (44 + 4 * k)) % 9) as usize;
                (0..size).map(|j| if (j + k + round) % 5 == 0 { b'\n' } else { b'a' + ((round + j) % 26) as u8 }).collect()
            })
            .collect();
        let slices: Vec<&[u8]> = fresh.iter().map(|v| v.as_slice()).collect();
        tree.replace::<BaseMetric>(start..end, slices);
        model.splice(start..end, fresh.concat());
        assert_eq!(tree.base_measure(), model.len());
        if round % 64 == 0 {
            assert!(tree.assert_invariants());
            let mut all = Vec::new();
            for leaf in tree.leaves() {
                all.extend_from_slice(leaf);
            }
            assert_eq!(all, model);
            let lines = model.iter().filter(|b| **b == b'\n').count();
            assert_eq!(tree.measure::<LineMetric>(), lines);
            kept.push((tree.clone(), model.clone()));
        }
    }
    for (old, expected) in kept.iter() {
        assert!(old.assert_invariants());
        let mut all = Vec::new();
        for leaf in old.leaves() {
            all.extend_from_slice(leaf);
        }
        assert_eq!(&all, expected);
    }
}

fn chunks(parts: &[&[u8]]) -> Vec<RopeChunk<4>> {
    parts.iter().map(|part| RopeChunk { bytes: part.to_vec() }).collect()
}

#[test]
fn the_byte_metric_cuts_trees_whose_chunks_divide_nothing() {
    let whole = Text::from_leaves(chunks_of("ab\r\n cd"));
    assert!(can_cut_bytes(&whole));
    let divided = Text::from_leaves(chunks(&[b"ab\r", b"\n cd"]));
    assert!(!can_cut_bytes(&divided));
    let divided = Text::from_leaves(chunks(&[b"a\r", b"", b"", b"\nb"]));
    assert!(!can_cut_bytes(&divided));
    let divided = Text::from_leaves(chunks(&[b"a", b"\xc3", b"\xa9"]));
    assert!(!can_cut_bytes(&divided));
    for parts in [
        &[&b"a"[..], b"", b"b"][..],
        &[b"", b"\n"],
        &[b"\r", b"", b"\r\n", b"\xc3\xa9"],
        &[b"\xa9", b"a"],
        &[b""],
        &[b"\r\n", b"\r"],
    ] {
        assert!(can_cut_bytes(&Text::from_leaves(chunks(parts))));
    }
    assert!(can_cut_bytes(&Text::from_leaves(Vec::new())));
}

#[test]
fn a_byte_slice_parts_no_pair_however_the_text_is_chunked() {
    let whole = Text::from_leaves(chunks_of("ab\r\n cd"));
    let slice = byte_slice::<4, 4, true>(&whole, 0..3);
    assert_eq!(slice.leaves().concat(), b"ab\r\n");
    let slice = byte_slice::<4, 4, false>(&whole, 3..7);
    assert_eq!(slice.leaves().concat(), b"\r\n cd");
    let slice = byte_slice::<4, 4, true>(&whole, 3..3);
    assert_eq!(0, slice.base_measure());

    let s = "a\r\n\u{e9}b\r\n\r\n\u{1F600}z\r";
    let bytes = s.as_bytes();
    for size in 1..6usize {
        let leaves: Vec<RopeChunk<4>> =
            bytes.chunks(size).map(|part| RopeChunk { bytes: part.to_vec() }).collect();
        let tree = Text::from_leaves(leaves);
        for at in 0..bytes.len() {
            assert_eq!(bytes[at], byte_at(&tree, at));
        }
        for start in 0..=bytes.len() {
            assert_eq!(adjust_split_point::<true>(s, start), cut_text::<4, 4, true>(&tree, start));
            assert_eq!(adjust_split_point::<false>(s, start), cut_text::<4, 4, false>(&tree, start));
            for end in start..=bytes.len() {
                let right = byte_slice::<4, 4, true>(&tree, start..end).leaves().concat();
                let from = adjust_split_point::<true>(s, start);
                let to = adjust_split_point::<true>(s, end);
                assert_eq!(right, &bytes[from..to]);
                let left = byte_slice::<4, 4, false>(&tree, start..end).leaves().concat();
                let from = adjust_split_point::<false>(s, start);
                let to = adjust_split_point::<false>(s, end);
                assert_eq!(left, &bytes[from..to]);
            }
        }
    }
}

#[test]
fn chunk_summaries_are_added_and_taken_away() {
    let whole = summarize_bytes(b"ab\r\n cd\n");
    let head = summarize_bytes(b"ab\r\n");
    let tail = summarize_bytes(b" cd\n");
    assert_eq!(whole, ChunkSummary { bytes: 8, line_breaks: 2 });
    assert_eq!(head.add(&tail), whole);
    assert_eq!(whole.sub(&tail), head);
    assert_eq!(whole.sub(&head), ChunkSummary { bytes: 4, line_breaks: 1 });
    assert_eq!(whole.sub(&whole), ChunkSummary::zero());
}
