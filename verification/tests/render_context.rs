use gloomy::render_context::RenderContext;

#[test]
fn render_context_push_sets_every_list_scissor() {
    let mut ctx: RenderContext<u32, u32, u32> = RenderContext::new();
    ctx.push_scissor(Some((10, 10, 100, 100)));
    ctx.push_scissor(Some((50, 50, 100, 100)));
    let expected = Some((50u32, 50u32, 60u32, 60u32));
    assert_eq!(ctx.scissors.current(), expected);
    assert_eq!(ctx.primitives.set_scissor(expected), expected);
    assert_eq!(ctx.text.set_scissor(expected), expected);
    assert_eq!(ctx.images.set_scissor(expected), expected);
}

#[test]
fn render_context_pop_restores_every_list_scissor() {
    let mut ctx: RenderContext<u32, u32, u32> = RenderContext::new();
    ctx.push_scissor(Some((10, 10, 100, 100)));
    ctx.push_scissor(Some((200, 200, 10, 10)));
    assert_eq!(ctx.scissors.current(), Some((0, 0, 0, 0)));
    ctx.pop_scissor();
    let outer = Some((10u32, 10u32, 100u32, 100u32));
    assert_eq!(ctx.scissors.current(), outer);
    assert_eq!(ctx.primitives.set_scissor(outer), outer);
    assert_eq!(ctx.text.set_scissor(outer), outer);
    assert_eq!(ctx.images.set_scissor(outer), outer);
    ctx.pop_scissor();
    assert_eq!(ctx.scissors.current(), None);
    assert_eq!(ctx.images.set_scissor(None), None);
}
