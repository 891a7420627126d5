use minisgl_cpu::{
    find_printable_text, slice_from_char_idx, ChatMessage, DetokenizeManager, DetokenizeRequest,
    PromptInput, TokenizeManager, TokenizeRequest, TokenizerBackend, TokenizerError,
};

#[test]
fn find_printable_text_keeps_cjk_chars() {
    assert_eq!(find_printable_text("你好"), "你好");
    assert_eq!(find_printable_text("你a"), "你");
}

#[test]
fn find_printable_text_keeps_word_boundary() {
    assert_eq!(find_printable_text("hello world"), "hello ");
    assert_eq!(find_printable_text("hello"), "");
}

#[test]
fn slice_from_char_idx_handles_multibyte() {
    assert_eq!(slice_from_char_idx("a你b", 1), "你b");
    assert_eq!(slice_from_char_idx("a你b", 2), "b");
}

#[derive(Clone, Default)]
struct FakeBackend;

impl TokenizerBackend for FakeBackend {
    fn encode_one(&self, text: &str) -> Result<Vec<u32>, String> {
        Ok(text.bytes().map(u32::from).collect())
    }

    fn encode_batch(&self, texts: &[&str]) -> Result<Vec<Vec<u32>>, String> {
        Ok(texts
            .iter()
            .map(|t| t.bytes().map(u32::from).collect::<Vec<u32>>())
            .collect())
    }

    fn apply_chat_template(&self, messages: &[ChatMessage]) -> Result<String, String> {
        Ok(messages
            .iter()
            .map(|m| format!("{}:{}", m.role, m.content))
            .collect::<Vec<String>>()
            .join("\n"))
    }

    fn decode_batch(&self, ids: &[Vec<u32>]) -> Result<Vec<String>, String> {
        let mut out = Vec::with_capacity(ids.len());
        for item in ids {
            let mut s = String::new();
            for &id in item {
                s.push(char::from_u32(id).unwrap_or('\u{FFFD}'));
            }
            out.push(s);
        }
        Ok(out)
    }

    fn eos_token_id(&self) -> Option<u32> {
        Some(0)
    }
}

#[test]
fn tokenize_plain_text_batch_is_supported() {
    let mgr = TokenizeManager::new(FakeBackend);
    let requests = vec![
        TokenizeRequest {
            uid: 1,
            prompt: PromptInput::Text {
                text: "ab".to_string(),
            },
        },
        TokenizeRequest {
            uid: 2,
            prompt: PromptInput::Text {
                text: "cd".to_string(),
            },
        },
    ];
    let out = mgr.tokenize(&requests).expect("tokenize");
    assert_eq!(out.len(), 2);
    assert_eq!(out[0].input_ids, vec![97, 98]);
    assert_eq!(out[1].input_ids, vec![99, 100]);
}

#[test]
fn tokenize_templates_chat_messages() {
    let mgr = TokenizeManager::new(FakeBackend);
    let requests = vec![TokenizeRequest {
        uid: 12,
        prompt: PromptInput::Messages {
            messages: vec![
                ChatMessage {
                    role: "a".to_string(),
                    content: "b".to_string(),
                },
                ChatMessage {
                    role: "c".to_string(),
                    content: "d".to_string(),
                },
            ],
        },
    }];
    let out = mgr.tokenize(&requests).expect("tokenize");
    assert_eq!(out.len(), 1);
    assert_eq!(out[0].uid, 12);
    // "a:b\nc:d" byte by byte
    assert_eq!(out[0].input_ids, vec![97, 58, 98, 10, 99, 58, 100]);
}

struct HugeIdBackend;

impl TokenizerBackend for HugeIdBackend {
    fn encode_one(&self, _text: &str) -> Result<Vec<u32>, String> {
        Ok(vec![u32::MAX])
    }

    fn encode_batch(&self, texts: &[&str]) -> Result<Vec<Vec<u32>>, String> {
        Ok(texts.iter().map(|_| vec![u32::MAX]).collect())
    }

    fn apply_chat_template(&self, _messages: &[ChatMessage]) -> Result<String, String> {
        Ok(String::new())
    }

    fn decode_batch(&self, ids: &[Vec<u32>]) -> Result<Vec<String>, String> {
        Ok(ids.iter().map(|_| String::new()).collect())
    }

    fn eos_token_id(&self) -> Option<u32> {
        None
    }
}

#[test]
fn tokenize_rejects_ids_that_do_not_fit() {
    let mgr = TokenizeManager::new(HugeIdBackend);
    let requests = vec![TokenizeRequest {
        uid: 5,
        prompt: PromptInput::Text {
            text: "x".to_string(),
        },
    }];
    let err = mgr.tokenize(&requests).expect_err("id too large");
    assert!(matches!(err, TokenizerError::TokenIdTooLarge(_)));
}

#[test]
fn detokenize_incremental_streaming_flushes_on_word_boundaries() {
    let mut mgr = DetokenizeManager::new(FakeBackend);
    let out_0 = mgr
        .detokenize(&[DetokenizeRequest {
            uid: 10,
            next_token: 'h' as i32,
            finished: false,
        }])
        .expect("detokenize step 0");
    let out_1 = mgr
        .detokenize(&[DetokenizeRequest {
            uid: 10,
            next_token: 'i' as i32,
            finished: false,
        }])
        .expect("detokenize step 1");
    let out_2 = mgr
        .detokenize(&[DetokenizeRequest {
            uid: 10,
            next_token: ' ' as i32,
            finished: false,
        }])
        .expect("detokenize step 2");
    let out_3 = mgr
        .detokenize(&[DetokenizeRequest {
            uid: 10,
            next_token: 0,
            finished: true,
        }])
        .expect("detokenize step 3");

    assert_eq!(out_0[0].incremental_output, "h");
    assert_eq!(out_1[0].incremental_output, "i");
    assert_eq!(out_2[0].incremental_output, " ");
    assert_eq!(out_3[0].incremental_output, "");
    assert_eq!(mgr.active_sequences(), 0);
}

#[test]
fn detokenize_streaming_handles_cjk_chars_without_byte_offset_corruption() {
    let mut mgr = DetokenizeManager::new(FakeBackend);
    let out_0 = mgr
        .detokenize(&[DetokenizeRequest {
            uid: 77,
            next_token: '你' as i32,
            finished: false,
        }])
        .expect("detokenize cjk step 0");
    let out_1 = mgr
        .detokenize(&[DetokenizeRequest {
            uid: 77,
            next_token: '好' as i32,
            finished: false,
        }])
        .expect("detokenize cjk step 1");
    let out_2 = mgr
        .detokenize(&[DetokenizeRequest {
            uid: 77,
            next_token: 0,
            finished: true,
        }])
        .expect("detokenize cjk step 2");

    assert_eq!(out_0[0].incremental_output, "你");
    assert_eq!(out_1[0].incremental_output, "好");
    assert_eq!(out_2[0].incremental_output, "");
    assert_eq!(mgr.active_sequences(), 0);
}

fn python_tokenize_oracle<B: TokenizerBackend>(
    backend: &B,
    requests: &[TokenizeRequest],
) -> Vec<minisgl_cpu::TokenizeOutput> {
    let mut out = Vec::with_capacity(requests.len());
    for request in requests {
        let ids = match &request.prompt {
            PromptInput::Text { text } => backend.encode_one(text).expect("encode_one"),
            PromptInput::Messages { messages } => {
                let prompt = backend
                    .apply_chat_template(messages)
                    .expect("apply_chat_template");
                backend.encode_one(&prompt).expect("encode_one")
            }
        };
        out.push(minisgl_cpu::TokenizeOutput {
            uid: request.uid,
            input_ids: ids.into_iter().map(|id| id as i32).collect(),
        });
    }
    out
}

#[derive(Clone, Default)]
struct OracleDecodeState {
    decoded_ids: Vec<u32>,
    decoded_str: String,
    read_offset: usize,
    surr_offset: usize,
    sent_offset_chars: usize,
}

struct PythonDetokenizeOracle {
    decode_map: std::collections::HashMap<u64, OracleDecodeState>,
    eos_token_id: Option<u32>,
}

impl PythonDetokenizeOracle {
    fn new(eos_token_id: Option<u32>) -> Self {
        Self {
            decode_map: std::collections::HashMap::new(),
            eos_token_id,
        }
    }

    fn detokenize<B: TokenizerBackend>(
        &mut self,
        backend: &B,
        requests: &[DetokenizeRequest],
    ) -> Vec<String> {
        let mut read_ids = Vec::with_capacity(requests.len());
        let mut surr_ids = Vec::with_capacity(requests.len());
        for request in requests {
            let state = self.decode_map.entry(request.uid).or_default();
            let token = u32::try_from(request.next_token).expect("non-negative token");
            let is_final_eos = request.finished && self.eos_token_id == Some(token);
            if !is_final_eos {
                state.decoded_ids.push(token);
            }
            read_ids.push(state.decoded_ids[state.surr_offset..].to_vec());
            surr_ids.push(state.decoded_ids[state.surr_offset..state.read_offset].to_vec());
        }

        let read_texts = backend.decode_batch(&read_ids).expect("decode_batch");
        let surr_texts = backend.decode_batch(&surr_ids).expect("decode_batch");
        let mut out = Vec::with_capacity(requests.len());
        for ((request, read_str), surr_str) in requests.iter().zip(read_texts).zip(surr_texts) {
            let state = self.decode_map.get_mut(&request.uid).expect("decode state");
            let mut new_text = slice_from_char_idx(&read_str, surr_str.chars().count());
            let output_str = if !new_text.is_empty() && !new_text.ends_with('\u{FFFD}') {
                let mut output = String::with_capacity(state.decoded_str.len() + new_text.len());
                output.push_str(&state.decoded_str);
                output.push_str(&new_text);
                state.decoded_str = output.clone();
                state.surr_offset = state.read_offset;
                state.read_offset = state.decoded_ids.len();
                output
            } else {
                new_text = find_printable_text(&new_text);
                let mut output = String::with_capacity(state.decoded_str.len() + new_text.len());
                output.push_str(&state.decoded_str);
                output.push_str(&new_text);
                output
            };

            let incremental_output = slice_from_char_idx(&output_str, state.sent_offset_chars);
            state.sent_offset_chars = output_str.chars().count();
            out.push(incremental_output);
            if request.finished {
                self.decode_map.remove(&request.uid);
            }
        }
        out
    }

    fn active_sequences(&self) -> usize {
        self.decode_map.len()
    }
}

#[test]
fn tokenize_matches_python_oracle_for_text_and_chat_prompts() {
    let backend = FakeBackend;
    let mgr = TokenizeManager::new(backend.clone());
    let requests = vec![
        TokenizeRequest {
            uid: 11,
            prompt: PromptInput::Text {
                text: "alpha beta".to_string(),
            },
        },
        TokenizeRequest {
            uid: 12,
            prompt: PromptInput::Messages {
                messages: vec![
                    ChatMessage {
                        role: "system".to_string(),
                        content: "You are concise.".to_string(),
                    },
                    ChatMessage {
                        role: "user".to_string(),
                        content: "Say hi".to_string(),
                    },
                ],
            },
        },
        TokenizeRequest {
            uid: 13,
            prompt: PromptInput::Text {
                text: "你好".to_string(),
            },
        },
    ];

    let expected = python_tokenize_oracle(&backend, &requests);
    let actual = mgr.tokenize(&requests).expect("tokenize");
    assert_eq!(actual, expected);
}

#[test]
fn detokenize_matches_python_oracle_for_interleaved_multilingual_streams() {
    let backend = FakeBackend;
    let mut rust_mgr = DetokenizeManager::new(backend.clone());
    let mut python_oracle = PythonDetokenizeOracle::new(backend.eos_token_id());

    let steps = vec![
        vec![
            DetokenizeRequest {
                uid: 1,
                next_token: '你' as i32,
                finished: false,
            },
            DetokenizeRequest {
                uid: 2,
                next_token: 'h' as i32,
                finished: false,
            },
        ],
        vec![
            DetokenizeRequest {
                uid: 1,
                next_token: 0xD800,
                finished: false,
            },
            DetokenizeRequest {
                uid: 2,
                next_token: 'i' as i32,
                finished: false,
            },
        ],
        vec![
            DetokenizeRequest {
                uid: 1,
                next_token: '好' as i32,
                finished: false,
            },
            DetokenizeRequest {
                uid: 2,
                next_token: ' ' as i32,
                finished: false,
            },
        ],
        vec![
            DetokenizeRequest {
                uid: 1,
                next_token: 0,
                finished: true,
            },
            DetokenizeRequest {
                uid: 2,
                next_token: 0,
                finished: true,
            },
        ],
    ];

    for requests in steps {
        let expected = python_oracle.detokenize(&backend, &requests);
        let actual = rust_mgr.detokenize(&requests).expect("detokenize");
        let actual_text = actual
            .into_iter()
            .map(|item| item.incremental_output)
            .collect::<Vec<String>>();
        assert_eq!(actual_text, expected);
        assert_eq!(rust_mgr.active_sequences(), python_oracle.active_sequences());
    }
}

#[test]
fn detokenize_rejects_negative_token_ids() {
    let mut mgr = DetokenizeManager::new(FakeBackend);
    let err = mgr
        .detokenize(&[DetokenizeRequest {
            uid: 1,
            next_token: -4,
            finished: false,
        }])
        .expect_err("negative id");
    assert!(matches!(err, TokenizerError::NegativeTokenId(-4)));
}

#[test]
fn detokenize_holds_back_incomplete_replacement_chars() {
    let mut mgr = DetokenizeManager::new(FakeBackend);
    // 0xD800 is a lone surrogate: the fake backend decodes it to U+FFFD,
    // so the text is held back rather than flushed
    let out = mgr
        .detokenize(&[DetokenizeRequest {
            uid: 3,
            next_token: 0xD800,
            finished: false,
        }])
        .expect("detokenize");
    assert_eq!(out[0].incremental_output, "");
    assert_eq!(mgr.active_sequences(), 1);
}
