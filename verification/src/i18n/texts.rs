use vstd::prelude::*;

use super::{lang_name, Lang};
use crate::text::{contains, ends_with, occurs_at, starts_with};

verus! {

/// The reply once a language is known: what to send.
pub open spec fn ready_text(lang: Lang) -> Seq<char> {
    match lang {
        Lang::En => "🥝 Ready. Send a game AppID or name and I will return a ZIP with .lua files."@,
        Lang::Es => "🥝 Listo. Envíame un AppID o nombre de juego y te enviaré un ZIP con archivos .lua."@,
        Lang::Tr => "🥝 Hazırım. Bir oyun AppID'si veya adı gönder; .lua dosyalarını ZIP olarak göndereyim."@,
        Lang::It => "🥝 Pronto. Inviami un AppID o nome del gioco e ti invierò uno ZIP con i file .lua."@,
        Lang::Fr => "🥝 Prêt. Envoyez un AppID ou un nom de jeu et je renverrai un ZIP avec les fichiers .lua."@,
        Lang::De => "🥝 Bereit. Sende eine AppID oder einen Spielnamen und ich schicke ein ZIP mit .lua-Dateien."@,
        Lang::Ru => "🥝 Готово. Отправьте AppID или название игры, и я пришлю ZIP с .lua файлами."@,
    }
}

/// The reply once a language is known: what to send.
pub fn ready(lang: Lang) -> (r: &'static str)
    ensures
        r@ == ready_text(lang),
{
    match lang {
        Lang::En => "🥝 Ready. Send a game AppID or name and I will return a ZIP with .lua files.",
        Lang::Es => "🥝 Listo. Envíame un AppID o nombre de juego y te enviaré un ZIP con archivos .lua.",
        Lang::Tr => "🥝 Hazırım. Bir oyun AppID'si veya adı gönder; .lua dosyalarını ZIP olarak göndereyim.",
        Lang::It => "🥝 Pronto. Inviami un AppID o nome del gioco e ti invierò uno ZIP con i file .lua.",
        Lang::Fr => "🥝 Prêt. Envoyez un AppID ou un nom de jeu et je renverrai un ZIP avec les fichiers .lua.",
        Lang::De => "🥝 Bereit. Sende eine AppID oder einen Spielnamen und ich schicke ein ZIP mit .lua-Dateien.",
        Lang::Ru => "🥝 Готово. Отправьте AppID или название игры, и я пришлю ZIP с .lua файлами.",
    }
}

/// The prompt above the language keyboard.
pub open spec fn choose_language_text(lang: Lang) -> Seq<char> {
    match lang {
        Lang::En => "Choose your language:"@,
        Lang::Es => "Elige tu idioma:"@,
        Lang::Tr => "Dilinizi seçin:"@,
        Lang::It => "Scegli la lingua:"@,
        Lang::Fr => "Choisissez votre langue :"@,
        Lang::De => "Sprache auswählen:"@,
        Lang::Ru => "Выберите язык:"@,
    }
}

/// The prompt above the language keyboard.
pub fn choose_language(lang: Lang) -> (r: &'static str)
    ensures
        r@ == choose_language_text(lang),
{
    match lang {
        Lang::En => "Choose your language:",
        Lang::Es => "Elige tu idioma:",
        Lang::Tr => "Dilinizi seçin:",
        Lang::It => "Scegli la lingua:",
        Lang::Fr => "Choisissez votre langue :",
        Lang::De => "Sprache auswählen:",
        Lang::Ru => "Выберите язык:",
    }
}

/// The greeting shown to a chat that has no language yet.
pub open spec fn choose_language_initial_text() -> Seq<char> {
    "Welcome to KiwiLua Bot.\n\nChoose your language:"@
}

/// The greeting shown to a chat that has no language yet.
pub fn choose_language_initial() -> (r: &'static str)
    ensures
        r@ == choose_language_initial_text(),
{
    "Welcome to KiwiLua Bot.\n\nChoose your language:"
}

/// The confirmation that the language was changed.
pub open spec fn language_set_text(lang: Lang) -> Seq<char> {
    match lang {
        Lang::En => "Language set to English."@,
        Lang::Es => "Idioma establecido: Español."@,
        Lang::Tr => "Dil Türkçe olarak ayarlandı."@,
        Lang::It => "Lingua impostata: Italiano."@,
        Lang::Fr => "Langue définie : Français."@,
        Lang::De => "Sprache eingestellt: Deutsch."@,
        Lang::Ru => "Язык установлен: Русский."@,
    }
}

/// The confirmation that the language was changed.
pub fn language_set(lang: Lang) -> (r: &'static str)
    ensures
        r@ == language_set_text(lang),
{
    match lang {
        Lang::En => "Language set to English.",
        Lang::Es => "Idioma establecido: Español.",
        Lang::Tr => "Dil Türkçe olarak ayarlandı.",
        Lang::It => "Lingua impostata: Italiano.",
        Lang::Fr => "Langue définie : Français.",
        Lang::De => "Sprache eingestellt: Deutsch.",
        Lang::Ru => "Язык установлен: Русский.",
    }
}

/// The help message with the contact.
pub open spec fn help_text_text(lang: Lang) -> Seq<char> {
    match lang {
        Lang::En => "Developer contact: @KiwiLua\nResponse time: 2-4 days."@,
        Lang::Es => "Contacto del desarrollador: @KiwiLua\nTiempo de respuesta: 2-4 días."@,
        Lang::Tr => "Geliştirici iletişimi: @KiwiLua\nYanıt süresi: 2-4 gün."@,
        Lang::It => "Contatto sviluppatore: @KiwiLua\nTempo di risposta: 2-4 giorni."@,
        Lang::Fr => "Contact développeur : @KiwiLua\nDélai de réponse : 2-4 jours."@,
        Lang::De => "Entwicklerkontakt: @KiwiLua\nAntwortzeit: 2-4 Tage."@,
        Lang::Ru => "Контакт разработчика: @KiwiLua\nВремя ответа: 2-4 дня."@,
    }
}

/// The help message with the contact.
pub fn help_text(lang: Lang) -> (r: &'static str)
    ensures
        r@ == help_text_text(lang),
{
    match lang {
        Lang::En => "Developer contact: @KiwiLua\nResponse time: 2-4 days.",
        Lang::Es => "Contacto del desarrollador: @KiwiLua\nTiempo de respuesta: 2-4 días.",
        Lang::Tr => "Geliştirici iletişimi: @KiwiLua\nYanıt süresi: 2-4 gün.",
        Lang::It => "Contatto sviluppatore: @KiwiLua\nTempo di risposta: 2-4 giorni.",
        Lang::Fr => "Contact développeur : @KiwiLua\nDélai de réponse : 2-4 jours.",
        Lang::De => "Entwicklerkontakt: @KiwiLua\nAntwortzeit: 2-4 Tage.",
        Lang::Ru => "Контакт разработчика: @KiwiLua\nВремя ответа: 2-4 дня.",
    }
}

/// The reply when a query matches no file.
pub open spec fn not_found_text(lang: Lang) -> Seq<char> {
    match lang {
        Lang::En => "No .lua files were found for this query. Try an AppID like 730."@,
        Lang::Es => "No se encontraron archivos .lua. Prueba con un AppID como 730."@,
        Lang::Tr => ".lua dosyası bulunamadı. 730 gibi bir AppID deneyin."@,
        Lang::It => "Nessun file .lua trovato. Prova un AppID come 730."@,
        Lang::Fr => "Aucun fichier .lua trouvé. Essayez un AppID comme 730."@,
        Lang::De => "Keine .lua-Dateien gefunden. Versuche eine AppID wie 730."@,
        Lang::Ru => ".lua файлы не найдены. Попробуйте AppID, например 730."@,
    }
}

/// The reply when a query matches no file.
pub fn not_found(lang: Lang) -> (r: &'static str)
    ensures
        r@ == not_found_text(lang),
{
    match lang {
        Lang::En => "No .lua files were found for this query. Try an AppID like 730.",
        Lang::Es => "No se encontraron archivos .lua. Prueba con un AppID como 730.",
        Lang::Tr => ".lua dosyası bulunamadı. 730 gibi bir AppID deneyin.",
        Lang::It => "Nessun file .lua trovato. Prova un AppID come 730.",
        Lang::Fr => "Aucun fichier .lua trouvé. Essayez un AppID comme 730.",
        Lang::De => "Keine .lua-Dateien gefunden. Versuche eine AppID wie 730.",
        Lang::Ru => ".lua файлы не найдены. Попробуйте AppID, например 730.",
    }
}

/// The notice sent while the archive is being built.
pub open spec fn sending_files_text(lang: Lang) -> Seq<char> {
    match lang {
        Lang::En => "Packing files in memory and sending the archive..."@,
        Lang::Es => "Empaquetando archivos en memoria y enviando el archivo..."@,
        Lang::Tr => "Dosyalar bellekte paketleniyor ve arşiv gönderiliyor..."@,
        Lang::It => "Impacchetto i file in memoria e invio l'archivio..."@,
        Lang::Fr => "Compression des fichiers en mémoire et envoi de l'archive..."@,
        Lang::De => "Dateien werden im Speicher gepackt und das Archiv wird gesendet..."@,
        Lang::Ru => "Упаковываю файлы в оперативной памяти и отправляю архив..."@,
    }
}

/// The notice sent while the archive is being built.
pub fn sending_files(lang: Lang) -> (r: &'static str)
    ensures
        r@ == sending_files_text(lang),
{
    match lang {
        Lang::En => "Packing files in memory and sending the archive...",
        Lang::Es => "Empaquetando archivos en memoria y enviando el archivo...",
        Lang::Tr => "Dosyalar bellekte paketleniyor ve arşiv gönderiliyor...",
        Lang::It => "Impacchetto i file in memoria e invio l'archivio...",
        Lang::Fr => "Compression des fichiers en mémoire et envoi de l'archive...",
        Lang::De => "Dateien werden im Speicher gepackt und das Archiv wird gesendet...",
        Lang::Ru => "Упаковываю файлы в оперативной памяти и отправляю архив...",
    }
}

/// The invitation to send a search query.
pub open spec fn search_prompt_text(lang: Lang) -> Seq<char> {
    match lang {
        Lang::En => "Send a game AppID or name to search for .lua files."@,
        Lang::Es => "Envía un AppID o nombre de juego para buscar archivos .lua."@,
        Lang::Tr => ".lua dosyalarını aramak için bir oyun AppID'si veya adı gönderin."@,
        Lang::It => "Invia un AppID o il nome del gioco per cercare file .lua."@,
        Lang::Fr => "Envoyez un AppID ou un nom de jeu pour rechercher des fichiers .lua."@,
        Lang::De => "Sende eine AppID oder einen Spielnamen, um .lua-Dateien zu suchen."@,
        Lang::Ru => "Отправьте AppID или название игры для поиска .lua файлов."@,
    }
}

/// The invitation to send a search query.
pub fn search_prompt(lang: Lang) -> (r: &'static str)
    ensures
        r@ == search_prompt_text(lang),
{
    match lang {
        Lang::En => "Send a game AppID or name to search for .lua files.",
        Lang::Es => "Envía un AppID o nombre de juego para buscar archivos .lua.",
        Lang::Tr => ".lua dosyalarını aramak için bir oyun AppID'si veya adı gönderin.",
        Lang::It => "Invia un AppID o il nome del gioco per cercare file .lua.",
        Lang::Fr => "Envoyez un AppID ou un nom de jeu pour rechercher des fichiers .lua.",
        Lang::De => "Sende eine AppID oder einen Spielnamen, um .lua-Dateien zu suchen.",
        Lang::Ru => "Отправьте AppID или название игры для поиска .lua файлов.",
    }
}

/// The reply to a query from a chat without a language.
pub open spec fn no_language_set_text() -> Seq<char> {
    "Please choose a language first.\n\nUse /start or /language."@
}

/// The reply to a query from a chat without a language.
pub fn no_language_set() -> (r: &'static str)
    ensures
        r@ == no_language_set_text(),
{
    "Please choose a language first.\n\nUse /start or /language."
}

/// The reply to an over-long query.
pub open spec fn query_too_long_text(lang: Lang) -> Seq<char> {
    match lang {
        Lang::En => "The query is too long. Send a shorter AppID or game name."@,
        Lang::Es => "La consulta es demasiado larga. Envía un AppID o nombre más corto."@,
        Lang::Tr => "Sorgu çok uzun. Daha kısa bir AppID veya oyun adı gönderin."@,
        Lang::It => "La ricerca è troppo lunga. Invia un AppID o nome più breve."@,
        Lang::Fr => "La recherche est trop longue. Envoyez un AppID ou un nom plus court."@,
        Lang::De => "Die Anfrage ist zu lang. Sende eine kürzere AppID oder einen kürzeren Namen."@,
        Lang::Ru => "Запрос слишком длинный. Отправьте более короткий AppID или название игры."@,
    }
}

/// The reply to an over-long query.
pub fn query_too_long(lang: Lang) -> (r: &'static str)
    ensures
        r@ == query_too_long_text(lang),
{
    match lang {
        Lang::En => "The query is too long. Send a shorter AppID or game name.",
        Lang::Es => "La consulta es demasiado larga. Envía un AppID o nombre más corto.",
        Lang::Tr => "Sorgu çok uzun. Daha kısa bir AppID veya oyun adı gönderin.",
        Lang::It => "La ricerca è troppo lunga. Invia un AppID o nome più breve.",
        Lang::Fr => "La recherche est trop longue. Envoyez un AppID ou un nom plus court.",
        Lang::De => "Die Anfrage ist zu lang. Sende eine kürzere AppID oder einen kürzeren Namen.",
        Lang::Ru => "Запрос слишком длинный. Отправьте более короткий AppID или название игры.",
    }
}

/// The reply when the archive could not be built.
pub open spec fn packing_error_text(lang: Lang) -> Seq<char> {
    match lang {
        Lang::En => "Could not create the ZIP archive. Please try again later."@,
        Lang::Es => "No se pudo crear el archivo ZIP. Inténtalo más tarde."@,
        Lang::Tr => "ZIP arşivi oluşturulamadı. Lütfen daha sonra tekrar deneyin."@,
        Lang::It => "Impossibile creare l'archivio ZIP. Riprova più tardi."@,
        Lang::Fr => "Impossible de créer l'archive ZIP. Réessayez plus tard."@,
        Lang::De => "Das ZIP-Archiv konnte nicht erstellt werden. Bitte später erneut versuchen."@,
        Lang::Ru => "Не удалось создать ZIP архив. Попробуйте позже."@,
    }
}

/// The reply when the archive could not be built.
pub fn packing_error(lang: Lang) -> (r: &'static str)
    ensures
        r@ == packing_error_text(lang),
{
    match lang {
        Lang::En => "Could not create the ZIP archive. Please try again later.",
        Lang::Es => "No se pudo crear el archivo ZIP. Inténtalo más tarde.",
        Lang::Tr => "ZIP arşivi oluşturulamadı. Lütfen daha sonra tekrar deneyin.",
        Lang::It => "Impossibile creare l'archivio ZIP. Riprova più tardi.",
        Lang::Fr => "Impossible de créer l'archive ZIP. Réessayez plus tard.",
        Lang::De => "Das ZIP-Archiv konnte nicht erstellt werden. Bitte später erneut versuchen.",
        Lang::Ru => "Не удалось создать ZIP архив. Попробуйте позже.",
    }
}

/// The ready texts of different languages differ.
pub proof fn lemma_ready_texts_distinct(a: Lang, b: Lang)
    requires
        a != b,
    ensures
        ready_text(a) != ready_text(b),
{
    reveal_strlit("🥝 Ready. Send a game AppID or name and I will return a ZIP with .lua files.");
    reveal_strlit("🥝 Listo. Envíame un AppID o nombre de juego y te enviaré un ZIP con archivos .lua.");
    reveal_strlit("🥝 Hazırım. Bir oyun AppID'si veya adı gönder; .lua dosyalarını ZIP olarak göndereyim.");
    reveal_strlit("🥝 Pronto. Inviami un AppID o nome del gioco e ti invierò uno ZIP con i file .lua.");
    reveal_strlit("🥝 Prêt. Envoyez un AppID ou un nom de jeu et je renverrai un ZIP avec les fichiers .lua.");
    reveal_strlit("🥝 Bereit. Sende eine AppID oder einen Spielnamen und ich schicke ein ZIP mit .lua-Dateien.");
    reveal_strlit("🥝 Готово. Отправьте AppID или название игры, и я пришлю ZIP с .lua файлами.");
    assert(ready_text(Lang::En).len() != ready_text(Lang::Es).len());
    assert(ready_text(Lang::En).len() != ready_text(Lang::Tr).len());
    assert(ready_text(Lang::En).len() != ready_text(Lang::It).len());
    assert(ready_text(Lang::En).len() != ready_text(Lang::Fr).len());
    assert(ready_text(Lang::En).len() != ready_text(Lang::De).len());
    assert(ready_text(Lang::En)[2] != ready_text(Lang::Ru)[2]);
    assert(ready_text(Lang::Es).len() != ready_text(Lang::Tr).len());
    assert(ready_text(Lang::Es).len() != ready_text(Lang::It).len());
    assert(ready_text(Lang::Es).len() != ready_text(Lang::Fr).len());
    assert(ready_text(Lang::Es).len() != ready_text(Lang::De).len());
    assert(ready_text(Lang::Es).len() != ready_text(Lang::Ru).len());
    assert(ready_text(Lang::Tr).len() != ready_text(Lang::It).len());
    assert(ready_text(Lang::Tr).len() != ready_text(Lang::Fr).len());
    assert(ready_text(Lang::Tr).len() != ready_text(Lang::De).len());
    assert(ready_text(Lang::Tr).len() != ready_text(Lang::Ru).len());
    assert(ready_text(Lang::It).len() != ready_text(Lang::Fr).len());
    assert(ready_text(Lang::It).len() != ready_text(Lang::De).len());
    assert(ready_text(Lang::It).len() != ready_text(Lang::Ru).len());
    assert(ready_text(Lang::Fr).len() != ready_text(Lang::De).len());
    assert(ready_text(Lang::Fr).len() != ready_text(Lang::Ru).len());
    assert(ready_text(Lang::De).len() != ready_text(Lang::Ru).len());
}

/// Every ready text begins with the kiwi and a space and mentions the
/// AppID, the ZIP and the `.lua` files.
pub proof fn lemma_ready_text_markers(lang: Lang)
    ensures
        starts_with(ready_text(lang), "🥝 "@),
        contains(ready_text(lang), "AppID"@),
        contains(ready_text(lang), "ZIP"@),
        contains(ready_text(lang), ".lua"@),
{
    reveal_strlit("🥝 ");
    reveal_strlit("AppID");
    reveal_strlit("ZIP");
    reveal_strlit(".lua");
    match lang {
        Lang::En => {
            reveal_strlit("🥝 Ready. Send a game AppID or name and I will return a ZIP with .lua files.");
            let t = ready_text(lang);
            assert(t.subrange(0, 2) =~= "🥝 "@);
            assert(t.subrange(21, 26) =~= "AppID"@);
            assert(occurs_at(t, "AppID"@, 21));
            assert(t.subrange(55, 58) =~= "ZIP"@);
            assert(occurs_at(t, "ZIP"@, 55));
            assert(t.subrange(64, 68) =~= ".lua"@);
            assert(occurs_at(t, ".lua"@, 64));
        },
        Lang::Es => {
            reveal_strlit("🥝 Listo. Envíame un AppID o nombre de juego y te enviaré un ZIP con archivos .lua.");
            let t = ready_text(lang);
            assert(t.subrange(0, 2) =~= "🥝 "@);
            assert(t.subrange(20, 25) =~= "AppID"@);
            assert(occurs_at(t, "AppID"@, 20));
            assert(t.subrange(60, 63) =~= "ZIP"@);
            assert(occurs_at(t, "ZIP"@, 60));
            assert(t.subrange(77, 81) =~= ".lua"@);
            assert(occurs_at(t, ".lua"@, 77));
        },
        Lang::Tr => {
            reveal_strlit("🥝 Hazırım. Bir oyun AppID'si veya adı gönder; .lua dosyalarını ZIP olarak göndereyim.");
            let t = ready_text(lang);
            assert(t.subrange(0, 2) =~= "🥝 "@);
            assert(t.subrange(20, 25) =~= "AppID"@);
            assert(occurs_at(t, "AppID"@, 20));
            assert(t.subrange(63, 66) =~= "ZIP"@);
            assert(occurs_at(t, "ZIP"@, 63));
            assert(t.subrange(46, 50) =~= ".lua"@);
            assert(occurs_at(t, ".lua"@, 46));
        },
        Lang::It => {
            reveal_strlit("🥝 Pronto. Inviami un AppID o nome del gioco e ti invierò uno ZIP con i file .lua.");
            let t = ready_text(lang);
            assert(t.subrange(0, 2) =~= "🥝 "@);
            assert(t.subrange(21, 26) =~= "AppID"@);
            assert(occurs_at(t, "AppID"@, 21));
            assert(t.subrange(61, 64) =~= "ZIP"@);
            assert(occurs_at(t, "ZIP"@, 61));
            assert(t.subrange(76, 80) =~= ".lua"@);
            assert(occurs_at(t, ".lua"@, 76));
        },
        Lang::Fr => {
            reveal_strlit("🥝 Prêt. Envoyez un AppID ou un nom de jeu et je renverrai un ZIP avec les fichiers .lua.");
            let t = ready_text(lang);
            assert(t.subrange(0, 2) =~= "🥝 "@);
            assert(t.subrange(19, 24) =~= "AppID"@);
            assert(occurs_at(t, "AppID"@, 19));
            assert(t.subrange(61, 64) =~= "ZIP"@);
            assert(occurs_at(t, "ZIP"@, 61));
            assert(t.subrange(83, 87) =~= ".lua"@);
            assert(occurs_at(t, ".lua"@, 83));
        },
        Lang::De => {
            reveal_strlit("🥝 Bereit. Sende eine AppID oder einen Spielnamen und ich schicke ein ZIP mit .lua-Dateien.");
            let t = ready_text(lang);
            assert(t.subrange(0, 2) =~= "🥝 "@);
            assert(t.subrange(21, 26) =~= "AppID"@);
            assert(occurs_at(t, "AppID"@, 21));
            assert(t.subrange(69, 72) =~= "ZIP"@);
            assert(occurs_at(t, "ZIP"@, 69));
            assert(t.subrange(77, 81) =~= ".lua"@);
            assert(occurs_at(t, ".lua"@, 77));
        },
        Lang::Ru => {
            reveal_strlit("🥝 Готово. Отправьте AppID или название игры, и я пришлю ZIP с .lua файлами.");
            let t = ready_text(lang);
            assert(t.subrange(0, 2) =~= "🥝 "@);
            assert(t.subrange(20, 25) =~= "AppID"@);
            assert(occurs_at(t, "AppID"@, 20));
            assert(t.subrange(56, 59) =~= "ZIP"@);
            assert(occurs_at(t, "ZIP"@, 56));
            assert(t.subrange(62, 66) =~= ".lua"@);
            assert(occurs_at(t, ".lua"@, 62));
        },
    }
}

/// The language prompts of different languages differ.
pub proof fn lemma_choose_language_texts_distinct(a: Lang, b: Lang)
    requires
        a != b,
    ensures
        choose_language_text(a) != choose_language_text(b),
{
    reveal_strlit("Choose your language:");
    reveal_strlit("Elige tu idioma:");
    reveal_strlit("Dilinizi seçin:");
    reveal_strlit("Scegli la lingua:");
    reveal_strlit("Choisissez votre langue :");
    reveal_strlit("Sprache auswählen:");
    reveal_strlit("Выберите язык:");
    assert(choose_language_text(Lang::En).len() != choose_language_text(Lang::Es).len());
    assert(choose_language_text(Lang::En).len() != choose_language_text(Lang::Tr).len());
    assert(choose_language_text(Lang::En).len() != choose_language_text(Lang::It).len());
    assert(choose_language_text(Lang::En).len() != choose_language_text(Lang::Fr).len());
    assert(choose_language_text(Lang::En).len() != choose_language_text(Lang::De).len());
    assert(choose_language_text(Lang::En).len() != choose_language_text(Lang::Ru).len());
    assert(choose_language_text(Lang::Es).len() != choose_language_text(Lang::Tr).len());
    assert(choose_language_text(Lang::Es).len() != choose_language_text(Lang::It).len());
    assert(choose_language_text(Lang::Es).len() != choose_language_text(Lang::Fr).len());
    assert(choose_language_text(Lang::Es).len() != choose_language_text(Lang::De).len());
    assert(choose_language_text(Lang::Es).len() != choose_language_text(Lang::Ru).len());
    assert(choose_language_text(Lang::Tr).len() != choose_language_text(Lang::It).len());
    assert(choose_language_text(Lang::Tr).len() != choose_language_text(Lang::Fr).len());
    assert(choose_language_text(Lang::Tr).len() != choose_language_text(Lang::De).len());
    assert(choose_language_text(Lang::Tr).len() != choose_language_text(Lang::Ru).len());
    assert(choose_language_text(Lang::It).len() != choose_language_text(Lang::Fr).len());
    assert(choose_language_text(Lang::It).len() != choose_language_text(Lang::De).len());
    assert(choose_language_text(Lang::It).len() != choose_language_text(Lang::Ru).len());
    assert(choose_language_text(Lang::Fr).len() != choose_language_text(Lang::De).len());
    assert(choose_language_text(Lang::Fr).len() != choose_language_text(Lang::Ru).len());
    assert(choose_language_text(Lang::De).len() != choose_language_text(Lang::Ru).len());
}

/// Every language prompt ends with a colon.
pub proof fn lemma_choose_language_ends_with_colon(lang: Lang)
    ensures
        ends_with(choose_language_text(lang), ":"@),
{
    reveal_strlit(":");
    match lang {
        Lang::En => {
            reveal_strlit("Choose your language:");
            assert(choose_language_text(lang).subrange(20, 21) =~= ":"@);
        },
        Lang::Es => {
            reveal_strlit("Elige tu idioma:");
            assert(choose_language_text(lang).subrange(15, 16) =~= ":"@);
        },
        Lang::Tr => {
            reveal_strlit("Dilinizi seçin:");
            assert(choose_language_text(lang).subrange(14, 15) =~= ":"@);
        },
        Lang::It => {
            reveal_strlit("Scegli la lingua:");
            assert(choose_language_text(lang).subrange(16, 17) =~= ":"@);
        },
        Lang::Fr => {
            reveal_strlit("Choisissez votre langue :");
            assert(choose_language_text(lang).subrange(24, 25) =~= ":"@);
        },
        Lang::De => {
            reveal_strlit("Sprache auswählen:");
            assert(choose_language_text(lang).subrange(17, 18) =~= ":"@);
        },
        Lang::Ru => {
            reveal_strlit("Выберите язык:");
            assert(choose_language_text(lang).subrange(13, 14) =~= ":"@);
        },
    }
}

/// The confirmations of different languages differ.
pub proof fn lemma_language_set_texts_distinct(a: Lang, b: Lang)
    requires
        a != b,
    ensures
        language_set_text(a) != language_set_text(b),
{
    reveal_strlit("Language set to English.");
    reveal_strlit("Idioma establecido: Español.");
    reveal_strlit("Dil Türkçe olarak ayarlandı.");
    reveal_strlit("Lingua impostata: Italiano.");
    reveal_strlit("Langue définie : Français.");
    reveal_strlit("Sprache eingestellt: Deutsch.");
    reveal_strlit("Язык установлен: Русский.");
    assert(language_set_text(Lang::En).len() != language_set_text(Lang::Es).len());
    assert(language_set_text(Lang::En).len() != language_set_text(Lang::Tr).len());
    assert(language_set_text(Lang::En).len() != language_set_text(Lang::It).len());
    assert(language_set_text(Lang::En).len() != language_set_text(Lang::Fr).len());
    assert(language_set_text(Lang::En).len() != language_set_text(Lang::De).len());
    assert(language_set_text(Lang::En).len() != language_set_text(Lang::Ru).len());
    assert(language_set_text(Lang::Es)[0] != language_set_text(Lang::Tr)[0]);
    assert(language_set_text(Lang::Es).len() != language_set_text(Lang::It).len());
    assert(language_set_text(Lang::Es).len() != language_set_text(Lang::Fr).len());
    assert(language_set_text(Lang::Es).len() != language_set_text(Lang::De).len());
    assert(language_set_text(Lang::Es).len() != language_set_text(Lang::Ru).len());
    assert(language_set_text(Lang::Tr).len() != language_set_text(Lang::It).len());
    assert(language_set_text(Lang::Tr).len() != language_set_text(Lang::Fr).len());
    assert(language_set_text(Lang::Tr).len() != language_set_text(Lang::De).len());
    assert(language_set_text(Lang::Tr).len() != language_set_text(Lang::Ru).len());
    assert(language_set_text(Lang::It).len() != language_set_text(Lang::Fr).len());
    assert(language_set_text(Lang::It).len() != language_set_text(Lang::De).len());
    assert(language_set_text(Lang::It).len() != language_set_text(Lang::Ru).len());
    assert(language_set_text(Lang::Fr).len() != language_set_text(Lang::De).len());
    assert(language_set_text(Lang::Fr).len() != language_set_text(Lang::Ru).len());
    assert(language_set_text(Lang::De).len() != language_set_text(Lang::Ru).len());
}

/// Every confirmation names the chosen language as its button does.
pub proof fn lemma_language_set_names_language(lang: Lang)
    ensures
        contains(language_set_text(lang), lang_name(lang)),
{
    match lang {
        Lang::En => {
            reveal_strlit("Language set to English.");
            reveal_strlit("English");
            assert(language_set_text(lang).subrange(16, 23) =~= lang_name(lang));
            assert(occurs_at(language_set_text(lang), lang_name(lang), 16));
        },
        Lang::Es => {
            reveal_strlit("Idioma establecido: Español.");
            reveal_strlit("Español");
            assert(language_set_text(lang).subrange(20, 27) =~= lang_name(lang));
            assert(occurs_at(language_set_text(lang), lang_name(lang), 20));
        },
        Lang::Tr => {
            reveal_strlit("Dil Türkçe olarak ayarlandı.");
            reveal_strlit("Türkçe");
            assert(language_set_text(lang).subrange(4, 10) =~= lang_name(lang));
            assert(occurs_at(language_set_text(lang), lang_name(lang), 4));
        },
        Lang::It => {
            reveal_strlit("Lingua impostata: Italiano.");
            reveal_strlit("Italiano");
            assert(language_set_text(lang).subrange(18, 26) =~= lang_name(lang));
            assert(occurs_at(language_set_text(lang), lang_name(lang), 18));
        },
        Lang::Fr => {
            reveal_strlit("Langue définie : Français.");
            reveal_strlit("Français");
            assert(language_set_text(lang).subrange(17, 25) =~= lang_name(lang));
            assert(occurs_at(language_set_text(lang), lang_name(lang), 17));
        },
        Lang::De => {
            reveal_strlit("Sprache eingestellt: Deutsch.");
            reveal_strlit("Deutsch");
            assert(language_set_text(lang).subrange(21, 28) =~= lang_name(lang));
            assert(occurs_at(language_set_text(lang), lang_name(lang), 21));
        },
        Lang::Ru => {
            reveal_strlit("Язык установлен: Русский.");
            reveal_strlit("Русский");
            assert(language_set_text(lang).subrange(17, 24) =~= lang_name(lang));
            assert(occurs_at(language_set_text(lang), lang_name(lang), 17));
        },
    }
}

} // verus!
