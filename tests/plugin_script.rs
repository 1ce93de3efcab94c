use fresh::plugin_script::action_script;

#[test]
fn action_script_calls_the_named_global() {
    let name = "my_test_action";
    let expected = format!(
        r#"
            (async () => {{
                if (typeof globalThis.{} === 'function') {{
                    const result = globalThis.{}();
                    if (result instanceof Promise) {{
                        await result;
                    }}
                }} else {{
                    throw new Error('Action "{}" is not defined as a global function');
                }}
            }})();
            "#,
        name, name, name
    );
    assert_eq!(action_script(name), expected);
}
