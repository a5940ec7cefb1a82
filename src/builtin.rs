use vstd::prelude::*;
use vstd::string::StringExecFns;

use crate::symbols::{FuncAttr, Symbols};

verus! {

/// The built-in operators: `add` and `mul` are associative and commutative;
/// `sub`, `neg`, `div`, `recip` and `pow` are neither.
pub fn init_symbols() -> (r: Symbols)
    ensures
        r.attrs_of("add"@) == Some(FuncAttr { associative: true, commutative: true }),
        r.attrs_of("mul"@) == Some(FuncAttr { associative: true, commutative: true }),
        r.attrs_of("sub"@) == Some(FuncAttr { associative: false, commutative: false }),
        r.attrs_of("neg"@) == Some(FuncAttr { associative: false, commutative: false }),
        r.attrs_of("div"@) == Some(FuncAttr { associative: false, commutative: false }),
        r.attrs_of("recip"@) == Some(FuncAttr { associative: false, commutative: false }),
        r.attrs_of("pow"@) == Some(FuncAttr { associative: false, commutative: false }),
{
    proof {
        reveal_strlit("add");
        reveal_strlit("sub");
        reveal_strlit("neg");
        reveal_strlit("mul");
        reveal_strlit("div");
        reveal_strlit("recip");
        reveal_strlit("pow");
        assert("add"@[0] == 'a' && "sub"@[0] == 's' && "neg"@[0] == 'n' && "mul"@[0] == 'm');
        assert("div"@[0] == 'd' && "recip"@[0] == 'r' && "pow"@[0] == 'p');
    }
    let mut symbols = Symbols::new();
    symbols.add_function(String::from_str("add"), FuncAttr::new(true, true));
    symbols.add_function(String::from_str("sub"), FuncAttr::new(false, false));
    symbols.add_function(String::from_str("neg"), FuncAttr::new(false, false));
    symbols.add_function(String::from_str("mul"), FuncAttr::new(true, true));
    symbols.add_function(String::from_str("div"), FuncAttr::new(false, false));
    symbols.add_function(String::from_str("recip"), FuncAttr::new(false, false));
    symbols.add_function(String::from_str("pow"), FuncAttr::new(false, false));
    symbols
}

} // verus!
