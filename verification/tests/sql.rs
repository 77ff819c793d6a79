use commonplace::sql::{esc, note_rows_filter, other_notes_filter, vault_filter};

/// Reads a single-quoted literal whose opening quote is already consumed;
/// gives its value and the text after the closing quote.
fn read_literal(t: &str) -> Option<(String, &str)> {
    let mut value = String::new();
    let mut it = t.char_indices().peekable();
    while let Some((i, c)) = it.next() {
        if c == '\'' {
            if let Some(&(_, '\'')) = it.peek() {
                it.next();
                value.push('\'');
            } else {
                return Some((value, &t[i + 1..]));
            }
        } else {
            value.push(c);
        }
    }
    None
}

#[test]
fn escaped_text_reads_back_whole() {
    for s in ["", "plain", "a'b", "'", "''", "' OR 1=1; --", "x' AND path = 'y"] {
        let lit = format!("{}' AND rest", esc(s));
        assert_eq!(read_literal(&lit), Some((s.to_string(), " AND rest")));
    }
}

#[test]
fn filters_hold_their_values() {
    assert_eq!(vault_filter("/v/it's"), "vault = '/v/it''s'");
    assert_eq!(note_rows_filter("/v", "/v/a'b.md"), "vault = '/v' AND path = '/v/a''b.md'");
    assert_eq!(other_notes_filter("/v", "/v/x.md"), "vault = '/v' AND path <> '/v/x.md'");
    let f = note_rows_filter("d' OR '1'='1", "p");
    let body = f.strip_prefix("vault = '").unwrap();
    let (v, rest) = read_literal(body).unwrap();
    assert_eq!(v, "d' OR '1'='1");
    assert_eq!(rest, " AND path = 'p'");
}

#[test]
fn escaping_undoes_and_is_identity_without_quotes() {
    for s in ["", "plain", "a'b", "''", "x'''y"] {
        assert_eq!(esc(s).replace("''", "'"), s);
        assert_eq!(esc(s) == s, !s.contains('\''));
    }
}
