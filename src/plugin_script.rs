//! The script text that runs a plugin action: it calls the global function of that
//! name, awaits it when it returns a promise, and fails when no such function is
//! defined.
use vstd::prelude::*;

verus! {

/// The script that runs the plugin action `name`.
pub open spec fn action_script_text(name: Seq<char>) -> Seq<char> {
    "\n            (async () => {\n                if (typeof globalThis."@ + name
        + " === 'function') {\n                    const result = globalThis."@ + name
        + "();\n                    if (result instanceof Promise) {\n                        await result;\n                    }\n                } else {\n                    throw new Error('Action \""@
        + name + "\" is not defined as a global function');\n                }\n            })();\n            "@
}

/// The script that runs the plugin action `action_name`.
pub fn action_script(action_name: &str) -> (r: String)
    ensures
        r@ == action_script_text(action_name@),
{
    let mut s = String::from_str(
        "\n            (async () => {\n                if (typeof globalThis.",
    );
    s.append(action_name);
    s.append(
        " === 'function') {\n                    const result = globalThis.",
    );
    s.append(action_name);
    s.append(
        "();\n                    if (result instanceof Promise) {\n                        await result;\n                    }\n                } else {\n                    throw new Error('Action \"",
    );
    s.append(action_name);
    s.append(
        "\" is not defined as a global function');\n                }\n            })();\n            ",
    );
    s
}

} // verus!
