//! The keyword table.
//!
//! A static, ordered list of the language's reserved words.  The order is
//! stable: keyword tokens occupy the contiguous kind values starting at
//! [`crate::FIRST_RESERVED`], so a keyword's token kind is
//! `FIRST_RESERVED + keyword_index`.

use vstd::prelude::*;

verus! {

/// The token kind of a reserved word, or `None` when the byte sequence is
/// not a keyword of the language.
pub open spec fn spec_keyword(s: Seq<u8>) -> Option<i32> {
    if s == seq![97u8, 110u8, 100u8] {
        Some(crate::TOK_AND)
    } else if s == seq![98u8, 114u8, 101u8, 97u8, 107u8] {
        Some(crate::TOK_BREAK)
    } else if s == seq![100u8, 111u8] {
        Some(crate::TOK_DO)
    } else if s == seq![101u8, 108u8, 115u8, 101u8] {
        Some(crate::TOK_ELSE)
    } else if s == seq![101u8, 108u8, 115u8, 101u8, 105u8, 102u8] {
        Some(crate::TOK_ELSEIF)
    } else if s == seq![101u8, 110u8, 100u8] {
        Some(crate::TOK_END)
    } else if s == seq![102u8, 97u8, 108u8, 115u8, 101u8] {
        Some(crate::TOK_FALSE)
    } else if s == seq![102u8, 111u8, 114u8] {
        Some(crate::TOK_FOR)
    } else if s == seq![102u8, 117u8, 110u8, 99u8, 116u8, 105u8, 111u8, 110u8] {
        Some(crate::TOK_FUNCTION)
    } else if s == seq![103u8, 111u8, 116u8, 111u8] {
        Some(crate::TOK_GOTO)
    } else if s == seq![105u8, 102u8] {
        Some(crate::TOK_IF)
    } else if s == seq![105u8, 110u8] {
        Some(crate::TOK_IN)
    } else if s == seq![108u8, 111u8, 99u8, 97u8, 108u8] {
        Some(crate::TOK_LOCAL)
    } else if s == seq![100u8, 101u8, 102u8, 101u8, 114u8] {
        Some(crate::TOK_DEFER)
    } else if s == seq![110u8, 105u8, 108u8] {
        Some(crate::TOK_NIL)
    } else if s == seq![110u8, 111u8, 116u8] {
        Some(crate::TOK_NOT)
    } else if s == seq![111u8, 114u8] {
        Some(crate::TOK_OR)
    } else if s == seq![114u8, 101u8, 112u8, 101u8, 97u8, 116u8] {
        Some(crate::TOK_REPEAT)
    } else if s == seq![114u8, 101u8, 116u8, 117u8, 114u8, 110u8] {
        Some(crate::TOK_RETURN)
    } else if s == seq![116u8, 104u8, 101u8, 110u8] {
        Some(crate::TOK_THEN)
    } else if s == seq![116u8, 114u8, 117u8, 101u8] {
        Some(crate::TOK_TRUE)
    } else if s == seq![117u8, 110u8, 116u8, 105u8, 108u8] {
        Some(crate::TOK_UNTIL)
    } else if s == seq![119u8, 104u8, 105u8, 108u8, 101u8] {
        Some(crate::TOK_WHILE)
    } else {
        None
    }
}

/// Exact byte-sequence match of `v` against the keyword table.
pub fn keyword_code(v: &Vec<u8>) -> (k: Option<i32>)
    ensures
        k == spec_keyword(v@),
{
    if v.len() == 3 && v[0] == 97 && v[1] == 110 && v[2] == 100 {
        proof {
            assert(v@ =~= seq![97u8, 110u8, 100u8]);
        }
        return Some(crate::TOK_AND);
    }
    if v.len() == 5 && v[0] == 98 && v[1] == 114 && v[2] == 101 && v[3] == 97 && v[4] == 107 {
        proof {
            assert(v@ =~= seq![98u8, 114u8, 101u8, 97u8, 107u8]);
        }
        return Some(crate::TOK_BREAK);
    }
    if v.len() == 2 && v[0] == 100 && v[1] == 111 {
        proof {
            assert(v@ =~= seq![100u8, 111u8]);
        }
        return Some(crate::TOK_DO);
    }
    if v.len() == 4 && v[0] == 101 && v[1] == 108 && v[2] == 115 && v[3] == 101 {
        proof {
            assert(v@ =~= seq![101u8, 108u8, 115u8, 101u8]);
        }
        return Some(crate::TOK_ELSE);
    }
    if v.len() == 6 && v[0] == 101 && v[1] == 108 && v[2] == 115 && v[3] == 101 && v[4] == 105 && v[5] == 102 {
        proof {
            assert(v@ =~= seq![101u8, 108u8, 115u8, 101u8, 105u8, 102u8]);
        }
        return Some(crate::TOK_ELSEIF);
    }
    if v.len() == 3 && v[0] == 101 && v[1] == 110 && v[2] == 100 {
        proof {
            assert(v@ =~= seq![101u8, 110u8, 100u8]);
        }
        return Some(crate::TOK_END);
    }
    if v.len() == 5 && v[0] == 102 && v[1] == 97 && v[2] == 108 && v[3] == 115 && v[4] == 101 {
        proof {
            assert(v@ =~= seq![102u8, 97u8, 108u8, 115u8, 101u8]);
        }
        return Some(crate::TOK_FALSE);
    }
    if v.len() == 3 && v[0] == 102 && v[1] == 111 && v[2] == 114 {
        proof {
            assert(v@ =~= seq![102u8, 111u8, 114u8]);
        }
        return Some(crate::TOK_FOR);
    }
    if v.len() == 8 && v[0] == 102 && v[1] == 117 && v[2] == 110 && v[3] == 99 && v[4] == 116 && v[5] == 105 && v[6] == 111 && v[7] == 110 {
        proof {
            assert(v@ =~= seq![102u8, 117u8, 110u8, 99u8, 116u8, 105u8, 111u8, 110u8]);
        }
        return Some(crate::TOK_FUNCTION);
    }
    if v.len() == 4 && v[0] == 103 && v[1] == 111 && v[2] == 116 && v[3] == 111 {
        proof {
            assert(v@ =~= seq![103u8, 111u8, 116u8, 111u8]);
        }
        return Some(crate::TOK_GOTO);
    }
    if v.len() == 2 && v[0] == 105 && v[1] == 102 {
        proof {
            assert(v@ =~= seq![105u8, 102u8]);
        }
        return Some(crate::TOK_IF);
    }
    if v.len() == 2 && v[0] == 105 && v[1] == 110 {
        proof {
            assert(v@ =~= seq![105u8, 110u8]);
        }
        return Some(crate::TOK_IN);
    }
    if v.len() == 5 && v[0] == 108 && v[1] == 111 && v[2] == 99 && v[3] == 97 && v[4] == 108 {
        proof {
            assert(v@ =~= seq![108u8, 111u8, 99u8, 97u8, 108u8]);
        }
        return Some(crate::TOK_LOCAL);
    }
    if v.len() == 5 && v[0] == 100 && v[1] == 101 && v[2] == 102 && v[3] == 101 && v[4] == 114 {
        proof {
            assert(v@ =~= seq![100u8, 101u8, 102u8, 101u8, 114u8]);
        }
        return Some(crate::TOK_DEFER);
    }
    if v.len() == 3 && v[0] == 110 && v[1] == 105 && v[2] == 108 {
        proof {
            assert(v@ =~= seq![110u8, 105u8, 108u8]);
        }
        return Some(crate::TOK_NIL);
    }
    if v.len() == 3 && v[0] == 110 && v[1] == 111 && v[2] == 116 {
        proof {
            assert(v@ =~= seq![110u8, 111u8, 116u8]);
        }
        return Some(crate::TOK_NOT);
    }
    if v.len() == 2 && v[0] == 111 && v[1] == 114 {
        proof {
            assert(v@ =~= seq![111u8, 114u8]);
        }
        return Some(crate::TOK_OR);
    }
    if v.len() == 6 && v[0] == 114 && v[1] == 101 && v[2] == 112 && v[3] == 101 && v[4] == 97 && v[5] == 116 {
        proof {
            assert(v@ =~= seq![114u8, 101u8, 112u8, 101u8, 97u8, 116u8]);
        }
        return Some(crate::TOK_REPEAT);
    }
    if v.len() == 6 && v[0] == 114 && v[1] == 101 && v[2] == 116 && v[3] == 117 && v[4] == 114 && v[5] == 110 {
        proof {
            assert(v@ =~= seq![114u8, 101u8, 116u8, 117u8, 114u8, 110u8]);
        }
        return Some(crate::TOK_RETURN);
    }
    if v.len() == 4 && v[0] == 116 && v[1] == 104 && v[2] == 101 && v[3] == 110 {
        proof {
            assert(v@ =~= seq![116u8, 104u8, 101u8, 110u8]);
        }
        return Some(crate::TOK_THEN);
    }
    if v.len() == 4 && v[0] == 116 && v[1] == 114 && v[2] == 117 && v[3] == 101 {
        proof {
            assert(v@ =~= seq![116u8, 114u8, 117u8, 101u8]);
        }
        return Some(crate::TOK_TRUE);
    }
    if v.len() == 5 && v[0] == 117 && v[1] == 110 && v[2] == 116 && v[3] == 105 && v[4] == 108 {
        proof {
            assert(v@ =~= seq![117u8, 110u8, 116u8, 105u8, 108u8]);
        }
        return Some(crate::TOK_UNTIL);
    }
    if v.len() == 5 && v[0] == 119 && v[1] == 104 && v[2] == 105 && v[3] == 108 && v[4] == 101 {
        proof {
            assert(v@ =~= seq![119u8, 104u8, 105u8, 108u8, 101u8]);
        }
        return Some(crate::TOK_WHILE);
    }

    None
}

} // verus!
