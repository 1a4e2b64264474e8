//! Plain data the chat pages exchange.  Storage and rendering live with the
//! collaborators that own them; the library only shapes the values.

use vstd::prelude::*;

verus! {

/// One stored chat message.
pub struct Message {
    pub id: String,
    pub text: String,
    pub create_time: i64,
}

/// What the send-message form submits.
pub struct SendMessageForm {
    pub new_message: String,
}

/// What the chat page renders with: the viewer's display name.
pub struct ChatTemplate {
    pub name: String,
}

/// The texts of the given messages, in the same order.
pub fn message_texts(messages: Vec<Message>) -> (r: Vec<String>)
    ensures
        r@.len() == messages@.len(),
        forall|i: int| 0 <= i < messages@.len() ==> r@[i]@ == messages@[i].text@,
{
    let mut out: Vec<String> = Vec::new();
    let mut k: usize = 0;
    while k < messages.len()
        invariant
            k <= messages@.len(),
            out@.len() == k,
            forall|i: int| 0 <= i < k ==> out@[i]@ == messages@[i].text@,
        decreases messages@.len() - k,
    {
        out.push(messages[k].text.clone());
        k = k + 1;
    }
    out
}

} // verus!
