//! How symbols, tokens, texts and aliases are ordered.
use vstd::prelude::*;

use crate::order::text_less;
use crate::rules::{alias_less, symbol_less, token_less, AliasView, Symbol, SymbolType};

verus! {

/// Symbols of one kind are ordered by their indices. External tokens come first, then the end, the
/// end of a non-terminal extra, and terminals, and non-terminals come last.
pub proof fn symbols_are_ordered(a: Symbol, b: Symbol)
    ensures
        a.kind == b.kind ==> symbol_less(a, b) == (a.index < b.index),
        a.kind == SymbolType::External && b.kind != SymbolType::External ==> symbol_less(a, b)
            && !symbol_less(b, a),
        b.kind == SymbolType::NonTerminal && a.kind != SymbolType::NonTerminal ==> symbol_less(a, b)
            && !symbol_less(b, a),
        a.kind == SymbolType::End && (b.kind == SymbolType::EndOfNonTerminalExtra || b.kind
            == SymbolType::Terminal) ==> symbol_less(a, b) && !symbol_less(b, a),
        a.kind == SymbolType::EndOfNonTerminalExtra && b.kind == SymbolType::Terminal
            ==> symbol_less(a, b) && !symbol_less(b, a),
{
}

/// Tokens of one kind are ordered by their indices. Terminals come first, then external tokens,
/// the end, and the end of a non-terminal extra.
pub proof fn tokens_are_ordered(a: Symbol, b: Symbol)
    ensures
        a.kind == b.kind ==> token_less(a, b) == (a.index < b.index),
        a.kind == SymbolType::Terminal && b.kind != SymbolType::Terminal ==> token_less(a, b)
            && !token_less(b, a),
        a.kind == SymbolType::External && (b.kind == SymbolType::End || b.kind
            == SymbolType::EndOfNonTerminalExtra) ==> token_less(a, b) && !token_less(b, a),
        a.kind == SymbolType::End && b.kind == SymbolType::EndOfNonTerminalExtra ==> token_less(
            a,
            b,
        ) && !token_less(b, a),
{
}

/// `a` and `b` agree before place `k`, and there `a` ends or has the lesser character.
pub open spec fn is_less_at(a: Seq<char>, b: Seq<char>, k: int) -> bool {
    &&& 0 <= k <= a.len()
    &&& k < b.len()
    &&& forall|i: int| 0 <= i < k ==> #[trigger] a[i] == b[i]
    &&& k < a.len() ==> (a[k] as int) < (b[k] as int)
}

/// Of two texts the lesser is the one that ends first or has the lesser character where they
/// first differ.
pub proof fn texts_are_ordered(a: Seq<char>, b: Seq<char>)
    ensures
        text_less(a, b) == exists|k: int| is_less_at(a, b, k),
    decreases a.len(),
{
    if b.len() > 0 {
        if a.len() == 0 || a[0] != b[0] {
            if text_less(a, b) {
                assert(is_less_at(a, b, 0));
            }
        } else {
            let x = a.drop_first();
            let y = b.drop_first();
            texts_are_ordered(x, y);
            if text_less(a, b) {
                let k = choose|k: int| is_less_at(x, y, k);
                assert forall|i: int| 0 <= i < k + 1 implies #[trigger] a[i] == b[i] by {
                    if i > 0 {
                        assert(x[i - 1] == y[i - 1]);
                    }
                }
                if k < x.len() {
                    assert(a[k + 1] == x[k] && b[k + 1] == y[k]);
                }
                assert(is_less_at(a, b, k + 1));
            }
            if exists|k: int| is_less_at(a, b, k) {
                let k = choose|k: int| is_less_at(a, b, k);
                assert(k > 0);
                assert forall|i: int| 0 <= i < k - 1 implies #[trigger] x[i] == y[i] by {
                    assert(a[i + 1] == b[i + 1]);
                }
                assert(is_less_at(x, y, k - 1));
            }
        }
    }
}

/// Aliases are ordered by their values; of two with one value, the anonymous one comes first.
pub proof fn aliases_are_ordered(a: AliasView, b: AliasView)
    ensures
        a.value != b.value ==> alias_less(a, b) == text_less(a.value, b.value),
        a.value == b.value ==> alias_less(a, b) == (!a.is_named && b.is_named),
{
    if a.value == b.value {
        texts_are_ordered(a.value, b.value);
        if text_less(a.value, b.value) {
            let k = choose|k: int| is_less_at(a.value, b.value, k);
            assert(false);
        }
    }
}

} // verus!
