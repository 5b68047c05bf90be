use forge::document::{settings_safe, DocumentProcessor};

const WORD_LEVEL: &str = r#"{"version":"1.0","truncation":null,"padding":null,"added_tokens":[],"normalizer":null,"pre_tokenizer":{"type":"Whitespace"},"post_processor":null,"decoder":null,"model":{"type":"WordLevel","vocab":{"[UNK]":0,"x":1,"y":2,"z":3},"unk_token":"[UNK]"}}"#;

#[test]
fn tokenizer_windows_over_token_count() {
    let tokenizer: tokenizers::Tokenizer = WORD_LEVEL.parse().unwrap();
    let chunks = DocumentProcessor::chunk_with_tokenizer(&tokenizer, "x y z w", 3, 1, None);
    let est: Vec<usize> = chunks.iter().map(|c| c.token_estimate).collect();
    assert_eq!(est, vec![3, 2]);
    assert!(chunks.iter().all(|c| c.text == "x y z w"));
    assert_eq!(chunks[1].id, "chunk-1");
}

const TIGHT_TRUNCATION: &str = r#"{"version":"1.0","truncation":{"direction":"Right","max_length":1,"strategy":"LongestFirst","stride":0},"padding":null,"added_tokens":[],"normalizer":null,"pre_tokenizer":{"type":"Whitespace"},"post_processor":{"type":"BertProcessing","sep":["[SEP]",4],"cls":["[CLS]",5]},"decoder":null,"model":{"type":"WordLevel","vocab":{"[UNK]":0,"x":1,"y":2,"z":3,"[SEP]":4,"[CLS]":5},"unk_token":"[UNK]"}}"#;

#[test]
fn tokenizer_with_unusable_truncation_falls_back_to_words() {
    let tokenizer: tokenizers::Tokenizer = TIGHT_TRUNCATION.parse().unwrap();
    let chunks = DocumentProcessor::chunk_with_tokenizer(&tokenizer, "x y z w", 3, 1, None);
    let texts: Vec<&str> = chunks.iter().map(|c| c.text.as_str()).collect();
    assert_eq!(texts, vec!["x y z", "z w"]);
}

#[test]
fn encode_settings_checks() {
    assert!(settings_safe(None, 2, None));
    assert!(!settings_safe(Some((1, 0)), 2, None));
    assert!(settings_safe(Some((2, 5)), 2, None));
    assert!(!settings_safe(Some((4, 2)), 2, None));
    assert!(settings_safe(Some((5, 2)), 2, None));
    assert!(!settings_safe(None, 0, Some((Some(8), None))));
    assert!(settings_safe(None, 0, Some((None, Some(0)))));
    assert!(!settings_safe(None, 0, Some((None, Some(8)))));
}
