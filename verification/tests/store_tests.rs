use succinct_json::{Packed, TextUsageBuilder};

#[test]
fn test_add_and_retrieve_string() {
    let mut builder = TextUsageBuilder::new(100, 1);

    let text = "Hello, world!";
    let text_id = builder.add_string(text);

    let mut usage = builder.build();

    let retrieved = usage.get_string(text_id);
    assert_eq!(retrieved.as_str(), text);
}

#[test]
fn test_multiple_strings_same_block() {
    let mut builder = TextUsageBuilder::new(1000, 1);

    let texts = vec!["First text", "Second text", "Third text"];
    let mut text_ids = Vec::new();

    for text in &texts {
        text_ids.push(builder.add_string(text));
    }

    let mut usage = builder.build();

    for (i, text_id) in text_ids.iter().enumerate() {
        let retrieved = usage.get_string(*text_id);
        assert_eq!(retrieved.as_str(), texts[i]);
    }
    assert_eq!(usage.stats().total_blocks, 1);
}

#[test]
fn test_multiple_blocks() {
    // short block size of only 10 bytes to force compression
    let mut builder = TextUsageBuilder::new(10, 1);

    // add a text beyond 10 bytes; this will fit in one block and force a new block
    let long_text = "This is a long text that should exceed the block size.";
    let id1 = builder.add_string(long_text);
    // this should be in a new block
    let short_text = "Short";
    let id2 = builder.add_string(short_text);

    let mut usage = builder.build();

    assert_eq!(usage.get_string(id1).as_str(), long_text);
    assert_eq!(usage.get_string(id2).as_str(), short_text);
    assert_eq!(usage.stats().total_blocks, 2);
}

#[test]
fn test_cache_functionality() {
    let mut builder = TextUsageBuilder::new(10, 5);

    let long_text = "This is a long text that should exceed the block size.";
    let id1 = builder.add_string(long_text);
    let short_text = "Short";
    let id2 = builder.add_string(short_text);

    let mut usage = builder.build();

    assert_eq!(usage.get_string(id1).as_str(), long_text);
    assert_eq!(usage.stats().cache_size, 1);

    assert_eq!(usage.get_string(id2).as_str(), short_text);
    assert_eq!(usage.stats().cache_size, 2);
}

#[test]
fn test_empty_string() {
    let mut builder = TextUsageBuilder::new(1000, 5);

    let text_id = builder.add_string("");

    let mut usage = builder.build();
    let retrieved = usage.get_string(text_id);
    assert_eq!(retrieved.as_str(), "");
    assert_eq!(usage.stats().total_texts, 1);
}

#[test]
fn test_string_exactly_at_block_size() {
    let block_size = 20;
    let mut builder = TextUsageBuilder::new(block_size, 5);

    let exact_size_text = "12345678901234567890"; // exactly 20 bytes
    assert_eq!(exact_size_text.len(), block_size);

    let text_id = builder.add_string(exact_size_text);

    let mut usage = builder.build();
    let retrieved = usage.get_string(text_id);
    assert_eq!(retrieved.as_str(), exact_size_text);
    assert_eq!(usage.stats().total_blocks, 1);
    assert_eq!(usage.stats().total_texts, 1);
}

#[test]
fn test_string_exactly_fills_remaining_space() {
    let block_size = 22;
    let mut builder = TextUsageBuilder::new(block_size, 5);

    let first_text = "Hello"; // 5 bytes plus 1 for terminator
    let id1 = builder.add_string(first_text);

    let second_text = "123456789012345"; // exactly 15 bytes plus 1 for terminator
    assert_eq!(second_text.len(), 15);
    let id2 = builder.add_string(second_text);

    let mut usage = builder.build();
    assert_eq!(usage.get_string(id1).as_str(), first_text);
    assert_eq!(usage.get_string(id2).as_str(), second_text);
    assert_eq!(usage.stats().total_blocks, 1);
    assert_eq!(usage.stats().total_texts, 2);
}

#[test]
fn test_string_one_byte_over_block_size() {
    let block_size = 20;
    let mut builder = TextUsageBuilder::new(block_size, 5);

    let first_text = "Hello"; // 5 bytes
    let id1 = builder.add_string(first_text);

    let second_text = "1234567890123456"; // 16 bytes
    assert_eq!(second_text.len(), 16);
    let id2 = builder.add_string(second_text);

    let mut usage = builder.build();
    assert_eq!(usage.get_string(id1).as_str(), first_text);
    assert_eq!(usage.get_string(id2).as_str(), second_text);
    assert_eq!(usage.stats().total_blocks, 2);
    assert_eq!(usage.stats().total_texts, 2);
}

#[test]
fn test_massive_string_far_exceeding_block_size() {
    let block_size = 10;
    let mut builder = TextUsageBuilder::new(block_size, 5);

    let massive_text = "A".repeat(100);
    let text_id = builder.add_string(&massive_text);

    let mut usage = builder.build();
    let retrieved = usage.get_string(text_id);
    assert_eq!(retrieved, massive_text);
    assert_eq!(usage.stats().total_blocks, 1);
    assert_eq!(usage.stats().total_texts, 1);
}

#[test]
fn test_multiple_strings_cumulative_exact_block_size() {
    let block_size = 23;
    let mut builder = TextUsageBuilder::new(block_size, 5);

    let text1 = "12345"; // 5 bytes
    let text2 = "67890"; // 5 bytes
    let text3 = "ABCDEFGHIJ"; // 10 bytes

    let id1 = builder.add_string(text1);
    let id2 = builder.add_string(text2);
    let id3 = builder.add_string(text3);

    let mut usage = builder.build();
    assert_eq!(usage.get_string(id1).as_str(), text1);
    assert_eq!(usage.get_string(id2).as_str(), text2);
    assert_eq!(usage.get_string(id3).as_str(), text3);
    assert_eq!(usage.stats().total_blocks, 1);
    assert_eq!(usage.stats().total_texts, 3);
}

#[test]
fn test_sequential_block_boundary_crossings() {
    let block_size = 10;
    let mut builder = TextUsageBuilder::new(block_size, 5);

    let texts = vec![
        "1234567890A", // 11 bytes - exceeds block
        "BCDEFGHIJK",  // 10 bytes - exactly block size
        "LMNOPQRSTU",  // 10 bytes - exactly block size
    ];

    let mut text_ids = Vec::new();
    for text in &texts {
        text_ids.push(builder.add_string(text));
    }

    let mut usage = builder.build();

    for (i, text_id) in text_ids.iter().enumerate() {
        assert_eq!(usage.get_string(*text_id).as_str(), texts[i]);
    }
    assert_eq!(usage.stats().total_blocks, 3);
    assert_eq!(usage.stats().total_texts, 3);
}

#[test]
fn test_empty_string_at_block_boundary() {
    let block_size = 10;
    let mut builder = TextUsageBuilder::new(block_size, 5);

    let full_text = "1234567890"; // exactly 10 bytes
    let id1 = builder.add_string(full_text);

    let id2 = builder.add_string("");

    let next_text = "Hello";
    let id3 = builder.add_string(next_text);

    let mut usage = builder.build();
    assert_eq!(usage.get_string(id1).as_str(), full_text);
    assert_eq!(usage.get_string(id2).as_str(), "");
    assert_eq!(usage.get_string(id3).as_str(), next_text);
    assert_eq!(usage.stats().total_blocks, 2);
    assert_eq!(usage.stats().total_texts, 3);
}

#[test]
fn test_zero_size_block_limit() {
    let mut builder = TextUsageBuilder::new(0, 5);

    let text1 = "A";
    let text2 = "B";
    let id1 = builder.add_string(text1);
    let id2 = builder.add_string(text2);

    let mut usage = builder.build();
    assert_eq!(usage.get_string(id1).as_str(), text1);
    assert_eq!(usage.get_string(id2).as_str(), text2);
    assert_eq!(usage.stats().total_blocks, 2);
    assert_eq!(usage.stats().total_texts, 2);
}

#[test]
fn test_alternating_exact_and_overflow() {
    let block_size = 10;
    let mut builder = TextUsageBuilder::new(block_size, 5);

    let exact_fit = "1234567890"; // exactly 10 bytes
    let overflow = "12345678901"; // 11 bytes

    let id1 = builder.add_string(exact_fit);
    let id2 = builder.add_string(overflow);
    let id3 = builder.add_string(exact_fit);
    let id4 = builder.add_string(overflow);

    let mut usage = builder.build();
    assert_eq!(usage.get_string(id1).as_str(), exact_fit);
    assert_eq!(usage.get_string(id2).as_str(), overflow);
    assert_eq!(usage.get_string(id3).as_str(), exact_fit);
    assert_eq!(usage.get_string(id4).as_str(), overflow);
    assert_eq!(usage.stats().total_blocks, 4);
    assert_eq!(usage.stats().total_texts, 4);
}

#[test]
fn test_multiple_empty_strings_at_boundaries() {
    let block_size = 6;
    let mut builder = TextUsageBuilder::new(block_size, 5);

    let text1 = "12345"; // exactly 5 bytes plus 1 for null terminator
    let id1 = builder.add_string(text1);

    let id2 = builder.add_string("");
    let id3 = builder.add_string("");
    let id4 = builder.add_string("");

    let text2 = "ABC";
    let id5 = builder.add_string(text2);

    let mut usage = builder.build();
    assert_eq!(usage.get_string(id1).as_str(), text1);
    assert_eq!(usage.get_string(id2).as_str(), "");
    assert_eq!(usage.get_string(id3).as_str(), "");
    assert_eq!(usage.get_string(id4).as_str(), "");
    assert_eq!(usage.get_string(id5).as_str(), text2);
    assert_eq!(usage.stats().total_blocks, 2);
    assert_eq!(usage.stats().total_texts, 5);
}

#[test]
fn test_single_byte_strings_at_boundary() {
    let block_size = 5;
    let mut builder = TextUsageBuilder::new(block_size, 5);

    let id1 = builder.add_string("A");
    let id2 = builder.add_string("B");
    let id3 = builder.add_string("C");
    let id4 = builder.add_string("D");
    let id5 = builder.add_string("E");

    let id6 = builder.add_string("F");

    let mut usage = builder.build();
    assert_eq!(usage.get_string(id1).as_str(), "A");
    assert_eq!(usage.get_string(id2).as_str(), "B");
    assert_eq!(usage.get_string(id3).as_str(), "C");
    assert_eq!(usage.get_string(id4).as_str(), "D");
    assert_eq!(usage.get_string(id5).as_str(), "E");
    assert_eq!(usage.get_string(id6).as_str(), "F");
    assert_eq!(usage.stats().total_blocks, 2);
    assert_eq!(usage.stats().total_texts, 6);
}

#[test]
fn test_block_size_one_byte() {
    let mut builder = TextUsageBuilder::new(1, 5);

    let id1 = builder.add_string("A");
    let id2 = builder.add_string("B");
    let id3 = builder.add_string("AB");
    let id4 = builder.add_string("");

    let mut usage = builder.build();
    assert_eq!(usage.get_string(id1).as_str(), "A");
    assert_eq!(usage.get_string(id2).as_str(), "B");
    assert_eq!(usage.get_string(id3).as_str(), "AB");
    assert_eq!(usage.get_string(id4).as_str(), "");
    assert_eq!(usage.stats().total_blocks, 4);
    assert_eq!(usage.stats().total_texts, 4);
}

#[test]
fn test_repeated_exact_block_fills() {
    let block_size = 10;
    let mut builder = TextUsageBuilder::new(block_size, 5);

    let exact_text = "1234567890"; // exactly 10 bytes
    let id1 = builder.add_string(exact_text);
    let id2 = builder.add_string(exact_text);
    let id3 = builder.add_string(exact_text);

    let mut usage = builder.build();
    assert_eq!(usage.get_string(id1).as_str(), exact_text);
    assert_eq!(usage.get_string(id2).as_str(), exact_text);
    assert_eq!(usage.get_string(id3).as_str(), exact_text);
    assert_eq!(usage.stats().total_blocks, 3);
    assert_eq!(usage.stats().total_texts, 3);
}

#[test]
fn test_cache_eviction_with_small_capacity() {
    let block_size = 10;
    let cache_capacity = 2;
    let mut builder = TextUsageBuilder::new(block_size, cache_capacity);

    let text1 = "Block1Text";
    let text2 = "Block2Text";
    let text3 = "Block3Text";
    let text4 = "Block4Text";

    let id1 = builder.add_string(text1);
    let id2 = builder.add_string(text2);
    let id3 = builder.add_string(text3);
    let id4 = builder.add_string(text4);

    let mut usage = builder.build();

    assert_eq!(usage.get_string(id1).as_str(), text1);
    assert_eq!(usage.stats().cache_size, 1);

    assert_eq!(usage.get_string(id2).as_str(), text2);
    assert_eq!(usage.stats().cache_size, 2);

    assert_eq!(usage.get_string(id3).as_str(), text3);
    assert_eq!(usage.stats().cache_size, 2);

    assert_eq!(usage.get_string(id4).as_str(), text4);
    assert_eq!(usage.stats().cache_size, 2);

    assert_eq!(usage.get_string(id1).as_str(), text1);
    assert_eq!(usage.stats().cache_size, 2);
}

#[test]
fn test_zero_cache_capacity() {
    let block_size = 10;
    let cache_capacity = 0;
    let mut builder = TextUsageBuilder::new(block_size, cache_capacity);

    let text1 = "Block1Text";
    let text2 = "Block2Text";
    let id1 = builder.add_string(text1);
    let id2 = builder.add_string(text2);

    let mut usage = builder.build();

    assert_eq!(usage.get_string(id1).as_str(), text1);
    assert_eq!(usage.stats().cache_size, 0);

    assert_eq!(usage.get_string(id2).as_str(), text2);
    assert_eq!(usage.stats().cache_size, 0);

    assert_eq!(usage.get_string(id1).as_str(), text1);
    assert_eq!(usage.stats().cache_size, 0);
}

#[test]
fn test_cache_thrashing_alternating_access() {
    let block_size = 10;
    let cache_capacity = 1;
    let mut builder = TextUsageBuilder::new(block_size, cache_capacity);

    let text1 = "Block1Text";
    let text2 = "Block2Text";
    let text3 = "Block3Text";
    let id1 = builder.add_string(text1);
    let id2 = builder.add_string(text2);
    let id3 = builder.add_string(text3);

    let mut usage = builder.build();

    assert_eq!(usage.get_string(id1).as_str(), text1);
    assert_eq!(usage.stats().cache_size, 1);

    assert_eq!(usage.get_string(id2).as_str(), text2);
    assert_eq!(usage.stats().cache_size, 1);

    assert_eq!(usage.get_string(id1).as_str(), text1);
    assert_eq!(usage.stats().cache_size, 1);

    assert_eq!(usage.get_string(id3).as_str(), text3);
    assert_eq!(usage.stats().cache_size, 1);

    assert_eq!(usage.get_string(id2).as_str(), text2);
    assert_eq!(usage.stats().cache_size, 1);
}

#[test]
fn test_cache_hit_same_block_multiple_strings() {
    let block_size = 50;
    let cache_capacity = 2;
    let mut builder = TextUsageBuilder::new(block_size, cache_capacity);

    let text1 = "First";
    let text2 = "Second";
    let text3 = "Third";
    let id1 = builder.add_string(text1);
    let id2 = builder.add_string(text2);
    let id3 = builder.add_string(text3);

    let mut usage = builder.build();
    assert_eq!(usage.stats().total_blocks, 1);

    assert_eq!(usage.get_string(id1).as_str(), text1);
    assert_eq!(usage.stats().cache_size, 1);

    assert_eq!(usage.get_string(id2).as_str(), text2);
    assert_eq!(usage.stats().cache_size, 1);

    assert_eq!(usage.get_string(id3).as_str(), text3);
    assert_eq!(usage.stats().cache_size, 1);
}

#[test]
fn test_cache_with_repeated_string_access() {
    let block_size = 10;
    let cache_capacity = 2;
    let mut builder = TextUsageBuilder::new(block_size, cache_capacity);

    let text1 = "Block1Text";
    let text2 = "Block2Text";
    let id1 = builder.add_string(text1);
    let id2 = builder.add_string(text2);

    let mut usage = builder.build();

    for _ in 0..5 {
        assert_eq!(usage.get_string(id1).as_str(), text1);
    }
    assert_eq!(usage.stats().cache_size, 1);

    assert_eq!(usage.get_string(id2).as_str(), text2);
    assert_eq!(usage.stats().cache_size, 2);

    for _ in 0..3 {
        assert_eq!(usage.get_string(id1).as_str(), text1);
    }
    assert_eq!(usage.stats().cache_size, 2);
}

#[test]
fn test_cache_capacity_larger_than_blocks() {
    let block_size = 10;
    let cache_capacity = 10;
    let mut builder = TextUsageBuilder::new(block_size, cache_capacity);

    let text1 = "Block1Text";
    let text2 = "Block2Text";
    let text3 = "Block3Text";
    let id1 = builder.add_string(text1);
    let id2 = builder.add_string(text2);
    let id3 = builder.add_string(text3);

    let mut usage = builder.build();
    assert_eq!(usage.stats().total_blocks, 3);

    assert_eq!(usage.get_string(id1).as_str(), text1);
    assert_eq!(usage.get_string(id2).as_str(), text2);
    assert_eq!(usage.get_string(id3).as_str(), text3);
    assert_eq!(usage.stats().cache_size, 3);

    assert_eq!(usage.get_string(id3).as_str(), text3);
    assert_eq!(usage.get_string(id1).as_str(), text1);
    assert_eq!(usage.get_string(id2).as_str(), text2);
    assert_eq!(usage.stats().cache_size, 3);
}

#[test]
fn test_cache_with_empty_strings() {
    let block_size = 10;
    let cache_capacity = 2;
    let mut builder = TextUsageBuilder::new(block_size, cache_capacity);

    let text1 = "Block1Text";
    let empty_id1 = builder.add_string("");
    let empty_id2 = builder.add_string("");
    let text2 = "Block2Text";
    let text2_id = builder.add_string(text2);
    let id1 = builder.add_string(text1);

    let mut usage = builder.build();

    assert_eq!(usage.get_string(id1).as_str(), text1);
    assert_eq!(usage.stats().cache_size, 1);

    assert_eq!(usage.get_string(empty_id1).as_str(), "");
    assert_eq!(usage.stats().cache_size, 2);

    assert_eq!(usage.get_string(empty_id2).as_str(), "");
    assert_eq!(usage.stats().cache_size, 2);

    assert_eq!(usage.get_string(text2_id).as_str(), text2);
    assert_eq!(usage.stats().cache_size, 2);
}

#[test]
fn test_cache_lru_ordering() {
    let block_size = 10;
    let cache_capacity = 3;
    let mut builder = TextUsageBuilder::new(block_size, cache_capacity);

    let text1 = "Block1Text";
    let text2 = "Block2Text";
    let text3 = "Block3Text";
    let text4 = "Block4Text";
    let id1 = builder.add_string(text1);
    let id2 = builder.add_string(text2);
    let id3 = builder.add_string(text3);
    let id4 = builder.add_string(text4);

    let mut usage = builder.build();

    assert_eq!(usage.get_string(id1).as_str(), text1);
    assert_eq!(usage.get_string(id2).as_str(), text2);
    assert_eq!(usage.get_string(id3).as_str(), text3);
    assert_eq!(usage.stats().cache_size, 3);

    assert_eq!(usage.get_string(id1).as_str(), text1);
    assert_eq!(usage.stats().cache_size, 3);

    assert_eq!(usage.get_string(id4).as_str(), text4);
    assert_eq!(usage.stats().cache_size, 3);

    assert_eq!(usage.get_string(id2).as_str(), text2);
    assert_eq!(usage.stats().cache_size, 3);
}

#[test]
fn test_packed() {
    let size = 10000usize;
    let mut initial_data = Vec::new();
    for i in 0..size {
        initial_data.push((i * 2) as u32);
    }
    let mut packed = Packed::new();
    for value in &initial_data {
        packed.append(*value);
    }
    let original_size = size * 4;
    let compressed_size = packed.compressed.len();
    let difference = original_size - compressed_size;
    println!(
        "Compressed {} values, original size: {}, compressed size: {}, difference: {}",
        size, original_size, compressed_size, difference
    );
    let decompressed_data = packed.decompressed();
    assert_eq!(initial_data, decompressed_data)
}

#[test]
fn test_store_heap_size_stable_across_reads() {
    // reads may grow only the cache, which the heap size leaves out
    let mut builder = TextUsageBuilder::new(10, 2);
    let id1 = builder.add_string("Block1Text");
    let id2 = builder.add_string("Block2Text");
    let mut usage = builder.build();
    let before = usage.heap_size();
    let _ = usage.get_string(id1);
    let _ = usage.get_string(id2);
    let _ = usage.get_string(id1);
    assert_eq!(usage.heap_size(), before);
}
