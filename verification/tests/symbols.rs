use dag_gc::abstractions::{intern, IString};
use dag_gc::symbol::Symbol;

#[test]
fn test_symbols() {
    let symbols = (0..=10)
        .map(|x| {
            let name = IString::from(format!("symbol({})", x).as_str());
            Symbol::new(name, x)
        })
        .collect::<Vec<_>>();

    for symbol in symbols {
        println!("{}", symbol.text());
    }
}

#[test]
fn symbol_text_is_the_interned_text() {
    let symbol = Symbol::new(intern("symbol(3)"), 3);
    assert_eq!(symbol.text(), "symbol(3)");
    assert_eq!(symbol.arity, 3);
    assert_ne!(symbol.text(), "");
}

#[test]
fn interned_strings_with_the_same_text_are_equal() {
    let one = intern("plus");
    let other = intern("plus");
    let third = intern("times");
    assert_eq!(one, other);
    assert_ne!(one, third);
    assert_eq!(one.as_str(), "plus");
}

#[test]
fn interning_the_empty_string() {
    let symbol = Symbol::new(intern(""), 0);
    assert_eq!(symbol.text(), "");
}
